use vstd::prelude::*;

verus! {

/// One slot of the board.
#[derive(Clone, Copy, Debug, PartialEq, Eq, Structural)]
pub enum Cell {
    Empty,
    X,
    O,
}

/// Why a coordinate vector does not address a cell.
#[derive(Clone, Copy, Debug, PartialEq, Eq, Structural)]
pub enum IndexError {
    /// The vector's length is not the board's dimension.
    DimensionMismatch,
    /// A component is not below the board's size.
    OutOfRange,
}

/// Why a board of the requested shape cannot be made.
#[derive(Clone, Copy, Debug, PartialEq, Eq, Structural)]
pub enum ShapeError {
    ZeroSize,
    ZeroDimension,
    /// `size^dimension` cells do not fit in memory indices.
    TooLarge,
}

/// `b^e` over the naturals.
pub open spec fn power(b: nat, e: nat) -> nat
    decreases e,
{
    if e == 0 {
        1
    } else {
        b * power(b, (e - 1) as nat)
    }
}

/// The flat offset of a coordinate vector: the sum of `c[d] * size^d`,
/// written in Horner form with the first component least significant.
pub open spec fn mixed_radix(c: Seq<usize>, size: nat) -> nat
    decreases c.len(),
{
    if c.len() == 0 {
        0
    } else {
        c[0] as nat + size * mixed_radix(c.drop_first(), size)
    }
}

/// The coordinate vector of `n` components whose offset is `i`.
pub open spec fn decode(i: nat, size: nat, n: nat) -> Seq<usize>
    decreases n,
{
    if n == 0 {
        Seq::empty()
    } else {
        seq![(i % size) as usize].add(decode(i / size, size, (n - 1) as nat))
    }
}

/// The mathematical content of a board.
pub struct BoardView {
    pub size: nat,
    pub dimension: nat,
    pub cells: Seq<Cell>,
}

impl BoardView {
    pub open spec fn wf(self) -> bool {
        &&& 1 <= self.size <= usize::MAX
        &&& self.dimension >= 1
        &&& self.cells.len() == power(self.size, self.dimension)
        &&& self.cells.len() <= usize::MAX
    }

    /// `c` has one component per axis, each below the size.
    pub open spec fn valid(self, c: Seq<usize>) -> bool {
        &&& c.len() == self.dimension
        &&& forall|d: int| 0 <= d < c.len() ==> (#[trigger] c[d]) < self.size
    }

    pub open spec fn index(self, c: Seq<usize>) -> nat {
        mixed_radix(c, self.size)
    }

    pub open spec fn cell_at(self, c: Seq<usize>) -> Cell {
        self.cells[self.index(c) as int]
    }

    /// The board with the cell at `c` replaced by `v`.
    pub open spec fn with_cell(self, c: Seq<usize>, v: Cell) -> BoardView {
        BoardView { cells: self.cells.update(self.index(c) as int, v), ..self }
    }

    /// What `index_of` returns for `c`.
    pub open spec fn index_result(self, c: Seq<usize>) -> Result<usize, IndexError> {
        if c.len() != self.dimension {
            Err(IndexError::DimensionMismatch)
        } else if !self.valid(c) {
            Err(IndexError::OutOfRange)
        } else {
            Ok(self.index(c) as usize)
        }
    }
}

/// A board of `size^dimension` cells, addressed by coordinate vectors.
pub struct Board {
    pub size: usize,
    pub dimension: usize,
    pub cells: Vec<Cell>,
}

impl View for Board {
    type V = BoardView;

    open spec fn view(&self) -> BoardView {
        BoardView { size: self.size as nat, dimension: self.dimension as nat, cells: self.cells@ }
    }
}

/// A valid vector's offset is below `size^len`.
pub proof fn lemma_index_bound(c: Seq<usize>, size: nat)
    requires
        size >= 1,
        forall|d: int| 0 <= d < c.len() ==> (#[trigger] c[d]) < size,
    ensures
        mixed_radix(c, size) < power(size, c.len()),
    decreases c.len(),
{
    if c.len() > 0 {
        let t = c.drop_first();
        assert forall|d: int| 0 <= d < t.len() implies (#[trigger] t[d]) < size by {
            assert(t[d] == c[d + 1]);
        }
        lemma_index_bound(t, size);
        let m = mixed_radix(t, size);
        let p = power(size, t.len());
        assert(c[0] as nat + size * m < size * p) by (nonlinear_arith)
            requires
                c[0] < size,
                m < p,
                m >= 0,
        ;
    }
}

/// Two valid vectors of one length with the same offset are equal.
pub proof fn lemma_index_injective(a: Seq<usize>, b: Seq<usize>, size: nat)
    requires
        size >= 1,
        a.len() == b.len(),
        forall|d: int| 0 <= d < a.len() ==> (#[trigger] a[d]) < size,
        forall|d: int| 0 <= d < b.len() ==> (#[trigger] b[d]) < size,
        mixed_radix(a, size) == mixed_radix(b, size),
    ensures
        a == b,
    decreases a.len(),
{
    if a.len() > 0 {
        let ta = a.drop_first();
        let tb = b.drop_first();
        assert forall|d: int| 0 <= d < ta.len() implies (#[trigger] ta[d]) < size by {
            assert(ta[d] == a[d + 1]);
        }
        assert forall|d: int| 0 <= d < tb.len() implies (#[trigger] tb[d]) < size by {
            assert(tb[d] == b[d + 1]);
        }
        let x = mixed_radix(a, size) as int;
        let ma = mixed_radix(ta, size) as int;
        let mb = mixed_radix(tb, size) as int;
        assert(x == ma * size + a[0]) by (nonlinear_arith)
            requires
                x == a[0] + size * ma,
        ;
        assert(x == mb * size + b[0]) by (nonlinear_arith)
            requires
                x == b[0] + size * mb,
        ;
        vstd::arithmetic::div_mod::lemma_fundamental_div_mod_converse(
            x,
            size as int,
            ma,
            a[0] as int,
        );
        vstd::arithmetic::div_mod::lemma_fundamental_div_mod_converse(
            x,
            size as int,
            mb,
            b[0] as int,
        );
        lemma_index_injective(ta, tb, size);
        assert(a =~= seq![a[0]].add(ta));
        assert(b =~= seq![b[0]].add(tb));
    }
}

/// Every offset below `size^n` is the offset of a valid vector of length `n`.
pub proof fn lemma_decode(i: nat, size: nat, n: nat)
    requires
        1 <= size <= usize::MAX,
        i < power(size, n),
    ensures
        decode(i, size, n).len() == n,
        forall|d: int| 0 <= d < n ==> (#[trigger] decode(i, size, n)[d]) < size,
        mixed_radix(decode(i, size, n), size) == i,
    decreases n,
{
    if n > 0 {
        let p = power(size, (n - 1) as nat);
        let q = i / size;
        assert(power(size, n) == size * p);
        assert(q < p) by {
            vstd::arithmetic::div_mod::lemma_multiply_divide_lt(i as int, size as int, p as int);
        }
        lemma_decode(q, size, (n - 1) as nat);
        let c = decode(i, size, n);
        let t = decode(q, size, (n - 1) as nat);
        assert(c.drop_first() =~= t);
        assert forall|d: int| 0 <= d < n implies (#[trigger] c[d]) < size by {
            if d > 0 {
                assert(c[d] == t[d - 1]);
            }
        }
        vstd::arithmetic::div_mod::lemma_fundamental_div_mod(i as int, size as int);
    }
}

/// Offsets are one-to-one over valid vectors, and every cell of a
/// well-formed board is the offset of some valid vector.
pub proof fn lemma_index_bijective(b: BoardView, c1: Seq<usize>, c2: Seq<usize>, i: nat)
    requires
        b.wf(),
    ensures
        b.valid(c1) ==> b.index(c1) < b.cells.len(),
        b.valid(c1) && b.valid(c2) && b.index(c1) == b.index(c2) ==> c1 == c2,
        i < b.cells.len() ==> b.valid(decode(i, b.size, b.dimension)) && b.index(
            decode(i, b.size, b.dimension),
        ) == i,
{
    if b.valid(c1) {
        lemma_index_bound(c1, b.size);
    }
    if b.valid(c1) && b.valid(c2) && b.index(c1) == b.index(c2) {
        lemma_index_injective(c1, c2, b.size);
    }
    if i < b.cells.len() {
        lemma_decode(i, b.size, b.dimension);
    }
}

/// Writing `v` at `c` makes `c` read `v`, and leaves every other valid
/// vector reading what it read before.
pub proof fn lemma_set_then_get(b: BoardView, c: Seq<usize>, v: Cell, other: Seq<usize>)
    requires
        b.wf(),
        b.valid(c),
    ensures
        b.with_cell(c, v).wf(),
        b.with_cell(c, v).cell_at(c) == v,
        b.valid(other) && other != c ==> b.with_cell(c, v).cell_at(other) == b.cell_at(other),
{
    lemma_index_bijective(b, c, other, 0);
    lemma_index_bijective(b, other, c, 0);
}

impl Board {
    /// A board of `size^dimension` empty cells.
    pub fn new(size: usize, dimension: usize) -> (r: Result<Board, ShapeError>)
        ensures
            size == 0 ==> r == Err::<Board, ShapeError>(ShapeError::ZeroSize),
            size > 0 && dimension == 0 ==> r == Err::<Board, ShapeError>(ShapeError::ZeroDimension),
            size > 0 && dimension > 0 ==> (r is Err <==> power(size as nat, dimension as nat) > usize::MAX),
            r is Err ==> r == Err::<Board, ShapeError>(ShapeError::TooLarge) || size == 0 || dimension == 0,
            r matches Ok(b) ==> {
                &&& b@.wf()
                &&& b.size == size
                &&& b.dimension == dimension
                &&& forall|i: int| 0 <= i < b@.cells.len() ==> (#[trigger] b@.cells[i]) == Cell::Empty
            },
    {
        if size == 0 {
            return Err(ShapeError::ZeroSize);
        }
        if dimension == 0 {
            return Err(ShapeError::ZeroDimension);
        }
        let mut count: usize = 1;
        let mut d: usize = 0;
        while d < dimension
            invariant
                size >= 1,
                d <= dimension,
                count == power(size as nat, d as nat),
            decreases dimension - d,
        {
            proof {
                assert(power(size as nat, (d + 1) as nat) == size * power(size as nat, d as nat));
                assert(size * count == count * size) by (nonlinear_arith);
            }
            match count.checked_mul(size) {
                Some(n) => {
                    count = n;
                },
                None => {
                    proof {
                        lemma_power_grows(size as nat, (d + 1) as nat, dimension as nat);
                    }
                    return Err(ShapeError::TooLarge);
                },
            }
            d = d + 1;
        }
        let mut cells: Vec<Cell> = Vec::new();
        let mut i: usize = 0;
        while i < count
            invariant
                i <= count,
                cells@.len() == i,
                forall|k: int| 0 <= k < i ==> (#[trigger] cells@[k]) == Cell::Empty,
            decreases count - i,
        {
            cells.push(Cell::Empty);
            i = i + 1;
        }
        Ok(Board { size, dimension, cells })
    }

    /// The flat offset of `coords`: the sum of `coords[d] * size^d`.
    pub fn index_of(&self, coords: &[usize]) -> (r: Result<usize, IndexError>)
        requires
            self@.wf(),
        ensures
            r == self@.index_result(coords@),
            r matches Ok(i) ==> i == self@.index(coords@) && i < self@.cells.len(),
    {
        if coords.len() != self.dimension {
            return Err(IndexError::DimensionMismatch);
        }
        let mut d: usize = 0;
        while d < coords.len()
            invariant
                self@.wf(),
                coords@.len() == self.dimension,
                d <= coords@.len(),
                forall|e: int| 0 <= e < d ==> (#[trigger] coords@[e]) < self.size,
            decreases coords.len() - d,
        {
            if coords[d] >= self.size {
                return Err(IndexError::OutOfRange);
            }
            d = d + 1;
        }
        proof {
            lemma_index_bound(coords@, self.size as nat);
        }
        // Horner's rule from the most significant component down.
        let mut index: usize = 0;
        let mut k: usize = coords.len();
        while k > 0
            invariant
                self@.wf(),
                self@.valid(coords@),
                k <= coords@.len(),
                index == mixed_radix(coords@.skip(k as int), self.size as nat),
                index < power(self.size as nat, (coords@.len() - k) as nat),
                power(self.size as nat, self.dimension as nat) <= usize::MAX,
            decreases k,
        {
            let ghost rest = coords@.skip(k as int);
            let ghost more = coords@.skip(k - 1);
            proof {
                assert(more.drop_first() =~= rest);
                assert(more[0] == coords@[k - 1]);
                let s = self.size as nat;
                let p = power(s, (coords@.len() - k) as nat);
                assert(power(s, (coords@.len() - k + 1) as nat) == s * p);
                lemma_power_grows(s, (coords@.len() - k + 1) as nat, self.dimension as nat);
                assert(index * s + coords@[k - 1] < s * p) by (nonlinear_arith)
                    requires
                        index < p,
                        coords@[k - 1] < s,
                ;
                assert(mixed_radix(more, s) == more[0] as nat + s * mixed_radix(rest, s));
                assert(index * s + coords@[k - 1] == more[0] as nat + s * index) by (nonlinear_arith)
                    requires
                        more[0] == coords@[k - 1],
                ;
            }
            index = index * self.size + coords[k - 1];
            k = k - 1;
        }
        assert(coords@.skip(0) =~= coords@);
        Ok(index)
    }

    /// The cell at `coords`.
    pub fn get(&self, coords: &[usize]) -> (r: Result<Cell, IndexError>)
        requires
            self@.wf(),
        ensures
            r is Err ==> r == Err::<Cell, IndexError>(self@.index_result(coords@)->Err_0),
            r is Ok <==> self@.index_result(coords@) is Ok,
            r matches Ok(v) ==> v == self@.cell_at(coords@),
    {
        match self.index_of(coords) {
            Ok(i) => Ok(self.cells[i]),
            Err(e) => Err(e),
        }
    }

    /// Puts `value` at `coords`; on an error the board is unchanged.
    pub fn set(&mut self, coords: &[usize], value: Cell) -> (r: Result<(), IndexError>)
        requires
            old(self)@.wf(),
        ensures
            final(self)@.wf(),
            r is Err ==> r == Err::<(), IndexError>(old(self)@.index_result(coords@)->Err_0),
            r is Ok <==> old(self)@.index_result(coords@) is Ok,
            r is Ok ==> final(self)@ == old(self)@.with_cell(coords@, value),
            r is Err ==> final(self)@ == old(self)@,
    {
        match self.index_of(coords) {
            Ok(i) => {
                self.cells.set(i, value);
                Ok(())
            },
            Err(e) => Err(e),
        }
    }
}

/// `b^e1 <= b^e2` for `b >= 1` and `e1 <= e2`.
pub proof fn lemma_power_grows(b: nat, e1: nat, e2: nat)
    requires
        b >= 1,
        e1 <= e2,
    ensures
        power(b, e1) <= power(b, e2),
    decreases e2,
{
    if e1 < e2 {
        lemma_power_grows(b, e1, (e2 - 1) as nat);
        let p = power(b, (e2 - 1) as nat);
        assert(p <= b * p) by (nonlinear_arith)
            requires
                b >= 1,
                p >= 0,
        ;
    }
}

} // verus!
