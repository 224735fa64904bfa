use nd_tictactoe::surface::{clear, img, rect, Sprite, Surface};

const RED: [u8; 4] = [0xff, 0, 0, 0xff];

#[test]
fn new_surface_is_zeroed() {
    let s = Surface::new(5, 4).unwrap();
    assert_eq!(s.pixels.len(), 80);
    assert!(s.pixels.iter().all(|b| *b == 0));
}

#[test]
fn sprite_needs_four_bytes_per_pixel() {
    assert!(Sprite::new(2, 2, vec![0; 16]).is_some());
    assert!(Sprite::new(2, 2, vec![0; 15]).is_none());
}

#[test]
fn clear_fills_every_pixel() {
    let mut s = Surface::new(3, 2).unwrap();
    clear(&mut s, &[1, 2, 3, 4]);
    for y in 0..2 {
        for x in 0..3 {
            assert_eq!(s.pixel(x, y), [1, 2, 3, 4]);
        }
    }
}

#[test]
fn rect_is_clipped_to_the_surface() {
    let mut s = Surface::new(4, 4).unwrap();
    rect(2, 1, 10, 2, &RED, &mut s);
    for y in 0..4u32 {
        for x in 0..4u32 {
            let inside = x >= 2 && (1..3).contains(&y);
            assert_eq!(s.pixel(x, y), if inside { RED } else { [0; 4] });
        }
    }
    rect(9, 9, 3, 3, &[7; 4], &mut s);
    rect(u64::MAX, 0, u64::MAX, 4, &[7; 4], &mut s);
    assert!(s.pixels.iter().all(|b| *b != 7));
}

#[test]
fn img_copies_and_clips() {
    let mut s = Surface::new(4, 3).unwrap();
    let mut data = Vec::new();
    for i in 0..9u8 {
        data.extend_from_slice(&[i, i, i, 0xff]);
    }
    let sprite = Sprite::new(3, 3, data).unwrap();
    img(2, 1, &sprite, &mut s);
    assert_eq!(s.pixel(2, 1), [0, 0, 0, 0xff]);
    assert_eq!(s.pixel(3, 1), [1, 1, 1, 0xff]);
    assert_eq!(s.pixel(2, 2), [3, 3, 3, 0xff]);
    assert_eq!(s.pixel(3, 2), [4, 4, 4, 0xff]);
    assert_eq!(s.pixel(1, 1), [0; 4]);
    assert_eq!(s.pixel(3, 0), [0; 4]);
}
