//! Bitboard representation of a position and its geometric queries.
//!
//! Bit `63 - (8 * row + col)` stands for the cell at `row`, `col`: the top-left
//! cell is the most significant bit.
use vstd::prelude::*;

verus! {

/// Number of compass directions; direction `d` and direction `d + 4` are opposite.
pub const DIRECTIONS: usize = 8;

/// Rotation amount of direction `d` (left, up-right, up, up-left, then the opposites).
pub open spec fn dir_rot(d: int) -> u64 {
    if d == 0 {
        1
    } else if d == 1 {
        7
    } else if d == 2 {
        8
    } else if d == 3 {
        9
    } else if d == 4 {
        63
    } else if d == 5 {
        57
    } else if d == 6 {
        56
    } else {
        55
    }
}

/// Mask that removes the bits that wrapped across an edge of the board when
/// shifting in direction `d`.
pub open spec fn dir_mask(d: int) -> u64 {
    if d == 0 {
        0xfefe_fefe_fefe_fefe
    } else if d == 1 {
        0x7f7f_7f7f_7f7f_7f00
    } else if d == 2 {
        0xffff_ffff_ffff_ff00
    } else if d == 3 {
        0xfefe_fefe_fefe_fe00
    } else if d == 4 {
        0x7f7f_7f7f_7f7f_7f7f
    } else if d == 5 {
        0x00fe_fefe_fefe_fefe
    } else if d == 6 {
        0x00ff_ffff_ffff_ffff
    } else {
        0x007f_7f7f_7f7f_7f7f
    }
}

/// Left rotation of the 64 bits of `x` by `n`, for `0 < n < 64`.
pub open spec fn rotl(x: u64, n: u64) -> u64 {
    (x << n) | (x >> (64 - n) as u64)
}

/// Every cell of `bits` moved one step in direction `d`; cells that would leave
/// the board are dropped.
pub open spec fn shift_spec(d: int, bits: u64) -> u64 {
    rotl(bits, dir_rot(d)) & dir_mask(d)
}

/// Cells of `mask` reached from `bits` by runs of `k + 1` or fewer steps in
/// direction `d` that stay inside `mask`.
pub open spec fn fill_steps(d: int, bits: u64, mask: u64, k: nat) -> u64
    decreases k,
{
    if k == 0 {
        shift_spec(d, bits) & mask
    } else {
        let f = fill_steps(d, bits, mask, (k - 1) as nat);
        f | (shift_spec(d, f) & mask)
    }
}

/// The run of `mask` cells that extends from `bits` in direction `d`: at most
/// six cells can lie between two cells of an eight-wide board, so seven
/// steps saturate.
pub open spec fn fill_spec(d: int, bits: u64, mask: u64) -> u64 {
    fill_steps(d, bits, mask, 6)
}

fn direction(d: usize) -> (r: (u32, u64))
    requires
        d < DIRECTIONS,
    ensures
        r.0 as u64 == dir_rot(d as int),
        r.1 == dir_mask(d as int),
{
    if d == 0 {
        (1, 0xfefe_fefe_fefe_fefe)
    } else if d == 1 {
        (7, 0x7f7f_7f7f_7f7f_7f00)
    } else if d == 2 {
        (8, 0xffff_ffff_ffff_ff00)
    } else if d == 3 {
        (9, 0xfefe_fefe_fefe_fe00)
    } else if d == 4 {
        (64 - 1, 0x7f7f_7f7f_7f7f_7f7f)
    } else if d == 5 {
        (64 - 7, 0x00fe_fefe_fefe_fefe)
    } else if d == 6 {
        (64 - 8, 0x00ff_ffff_ffff_ffff)
    } else {
        (64 - 9, 0x007f_7f7f_7f7f_7f7f)
    }
}

/// Moves every cell of `bits` one step in direction `d`.
pub fn shift(d: usize, bits: u64) -> (r: u64)
    requires
        d < DIRECTIONS,
    ensures
        r == shift_spec(d as int, bits),
{
    let (rot, mask) = direction(d);
    let n: u64 = rot as u64;
    ((bits << n) | (bits >> (64 - n))) & mask
}

/// The run of `mask` cells that extends from `bits` in direction `d`.
pub fn fill(d: usize, bits: u64, mask: u64) -> (r: u64)
    requires
        d < DIRECTIONS,
    ensures
        r == fill_spec(d as int, bits, mask),
{
    let mut f: u64 = shift(d, bits) & mask;
    let mut k: usize = 0;
    while k < 6
        invariant
            d < DIRECTIONS,
            k <= 6,
            f == fill_steps(d as int, bits, mask, k as nat),
        decreases 6 - k,
    {
        f = f | (shift(d, f) & mask);
        k = k + 1;
    }
    f
}


/// A position: the discs of the side to move, those of the other side, and
/// the cells that no disc can ever occupy.
#[derive(Debug, Clone, Copy, PartialEq, Eq, Structural)]
pub struct Board {
    pub player: u64,
    pub opponent: u64,
    pub holes: u64,
}

/// Whether bit `i` of `x` is set.
pub open spec fn has_bit(x: u64, i: u64) -> bool {
    (x >> i) & 1 == 1
}

/// `m` has exactly one bit set.
pub open spec fn is_single(m: u64) -> bool {
    m != 0 && m & sub_one(m) == 0
}

/// Number of set bits of `x`.
pub open spec fn pop(x: u64) -> nat
    decreases x,
{
    if x == 0 {
        0
    } else {
        pop(x / 2) + (x % 2) as nat
    }
}

/// Union of the first `n` masks of `t`, one mask per direction.
pub open spec fn union_upto(t: Seq<u64>, n: nat) -> u64
    decreases n,
{
    if n == 0 {
        0
    } else {
        union_upto(t, (n - 1) as nat) | t[n - 1]
    }
}

/// The highest set bit of a non-zero `x`.
pub open spec fn top_bit(x: u64) -> u64 {
    1u64 << ((63 - vstd::std_specs::bits::u64_leading_zeros(x)) as u64)
}

impl Board {
    /// No cell holds two discs, and no disc stands on a hole.
    pub open spec fn wf(self) -> bool {
        self.player & self.opponent == 0 && (self.player | self.opponent) & self.holes == 0
    }

    /// Cells that hold a disc or are holes.
    pub open spec fn taken(self) -> u64 {
        self.player | self.opponent | self.holes
    }

    /// Cells that are neither occupied nor holes.
    pub open spec fn open_cells(self) -> u64 {
        !self.taken()
    }

    /// Empty cells that direction `d` makes playable: a run of opponent
    /// discs in direction `d` from one of the player's discs ends on them.
    pub open spec fn dir_moves(self, d: int) -> u64 {
        shift_spec(d, fill_spec(d, self.player, self.opponent))
    }

    /// The legal moves: open cells that some direction makes playable.
    pub open spec fn moves_spec(self) -> u64 {
        union_upto(Seq::new(8, |d: int| self.dir_moves(d)), 8) & self.open_cells()
    }

    /// Cells adjacent in some direction to an open cell.
    pub open spec fn exposed(self) -> u64 {
        union_upto(Seq::new(8, |d: int| shift_spec(d, self.open_cells())), 8)
    }

    /// The player's discs next to an open cell.
    pub open spec fn frontier_spec(self) -> u64 {
        self.exposed() & self.player
    }

    /// The opponent discs that a disc on `m` brackets in direction `d`: the
    /// run of opponent discs from `m`, kept only where a player disc ends it.
    pub open spec fn dir_flips(self, m: u64, d: int) -> u64 {
        let f = fill_spec(d, m, self.opponent);
        if shift_spec(d, f) & self.player == 0 {
            0
        } else {
            f
        }
    }

    /// The opponent discs that a disc on `m` brackets in any direction.
    pub open spec fn flipped_spec(self, m: u64) -> u64 {
        union_upto(Seq::new(8, |d: int| self.dir_flips(m, d)), 8)
    }

    /// The position after the side to move places a disc on `m`; the turn
    /// passes to the other side.
    pub open spec fn play_spec(self, m: u64) -> Board {
        let f = self.flipped_spec(m);
        Board { player: self.opponent ^ f, opponent: self.player ^ (f | m), holes: self.holes }
    }

    /// The same position with the other side to move.
    pub open spec fn pass_spec(self) -> Board {
        Board { player: self.opponent, opponent: self.player, holes: self.holes }
    }

    /// Along axis `a` (direction `a` and its opposite `a + 4`), one neighbour
    /// of the single cell `m` lies off the board or on a hole.
    pub open spec fn axis_closed(self, m: u64, a: int) -> bool {
        shift_spec(a, m) & !self.holes == 0 || shift_spec(a + 4, m) & !self.holes == 0
    }

    /// Cell `i` is not a hole and is closed along all four axes.
    pub open spec fn is_corner(self, i: u64) -> bool {
        let m = 1u64 << i;
        &&& m & !self.holes != 0
        &&& self.axis_closed(m, 0)
        &&& self.axis_closed(m, 1)
        &&& self.axis_closed(m, 2)
        &&& self.axis_closed(m, 3)
    }

    /// The corner cells among bits `0 .. n`.
    pub open spec fn corners_upto(self, n: nat) -> u64
        decreases n,
    {
        if n == 0 {
            0
        } else if self.is_corner((n - 1) as u64) {
            self.corners_upto((n - 1) as nat) | (1u64 << ((n - 1) as u64))
        } else {
            self.corners_upto((n - 1) as nat)
        }
    }

    /// All corner cells of the position.
    pub open spec fn corners_spec(self) -> u64 {
        self.corners_upto(64)
    }
}


impl Board {
    /// The position after placing a disc on `m` and flipping what it brackets.
    pub fn play(&self, m: u64) -> (r: Board)
        ensures
            r == self.play_spec(m),
    {
        let flipped = self.flipped(m);
        Board { player: self.opponent ^ flipped, opponent: self.player ^ (flipped | m), holes: self.holes }
    }

    /// The same position with the other side to move.
    pub fn pass(&self) -> (r: Board)
        ensures
            r == self.pass_spec(),
    {
        Board { player: self.opponent, opponent: self.player, holes: self.holes }
    }

    /// The legal moves of the side to move, one bit per cell.
    pub fn moves(&self) -> (r: u64)
        ensures
            r == self.moves_spec(),
            r & self.taken() == 0,
    {
        let open = !(self.player | self.opponent | self.holes);
        let ghost t = Seq::new(8, |d: int| self.dir_moves(d));
        let mut acc: u64 = 0;
        let mut d: usize = 0;
        while d < DIRECTIONS
            invariant
                d <= DIRECTIONS,
                t == Seq::new(8, |d: int| self.dir_moves(d)),
                acc == union_upto(t, d as nat),
            decreases DIRECTIONS - d,
        {
            acc = acc | shift(d, fill(d, self.player, self.opponent));
            d = d + 1;
        }
        proof {
            lemma_moves_open(*self);
        }
        acc & open
    }

    /// The player's discs that touch an open cell.
    pub fn frontier(&self) -> (r: u64)
        ensures
            r == self.frontier_spec(),
    {
        let open = !(self.player | self.opponent | self.holes);
        let ghost t = Seq::new(8, |d: int| shift_spec(d, self.open_cells()));
        let mut acc: u64 = 0;
        let mut d: usize = 0;
        while d < DIRECTIONS
            invariant
                d <= DIRECTIONS,
                open == self.open_cells(),
                t == Seq::new(8, |d: int| shift_spec(d, self.open_cells())),
                acc == union_upto(t, d as nat),
            decreases DIRECTIONS - d,
        {
            acc = acc | shift(d, open);
            d = d + 1;
        }
        acc & self.player
    }

    /// The opponent discs that a disc placed on `m` flips.
    fn flipped(&self, m: u64) -> (r: u64)
        ensures
            r == self.flipped_spec(m),
    {
        let ghost t = Seq::new(8, |d: int| self.dir_flips(m, d));
        let mut acc: u64 = 0;
        let mut d: usize = 0;
        while d < DIRECTIONS
            invariant
                d <= DIRECTIONS,
                t == Seq::new(8, |d: int| self.dir_flips(m, d)),
                acc == union_upto(t, d as nat),
            decreases DIRECTIONS - d,
        {
            let f = fill(d, m, self.opponent);
            let run = if shift(d, f) & self.player == 0 {
                0
            } else {
                f
            };
            acc = acc | run;
            d = d + 1;
        }
        acc
    }
}


proof fn lemma_set_bit(r: u64, i: u64, j: u64)
    requires
        i < 64,
        j < 64,
    ensures
        has_bit(r | (1u64 << i), j) <==> (j == i || has_bit(r, j)),
{
    assert(((r | (1u64 << i)) >> j) & 1 == 1 <==> (j == i || (r >> j) & 1 == 1)) by (bit_vector)
        requires
            i < 64,
            j < 64,
    ;
}

impl Board {
    /// The cells that are not holes and are closed along every axis: stable
    /// anchors such as the corners of the board.
    pub fn corners(&self) -> (r: u64)
        ensures
            r == self.corners_spec(),
            forall|i: u64| i < 64 ==> (has_bit(r, i) <==> self.is_corner(i)),
    {
        let free = !self.holes;
        let mut acc: u64 = 0;
        let mut i: u64 = 0;
        assert forall|j: u64| j < 64 implies !has_bit(0u64, j) by {
            assert((0u64 >> j) & 1 == 0) by (bit_vector);
        }
        while i < 64
            invariant
                i <= 64,
                free == !self.holes,
                acc == self.corners_upto(i as nat),
                forall|j: u64| j < i ==> (has_bit(acc, j) <==> self.is_corner(j)),
                forall|j: u64| i <= j < 64 ==> !has_bit(acc, j),
            decreases 64 - i,
        {
            let m: u64 = 1u64 << i;
            let mut closed = m & free != 0;
            let mut a: usize = 0;
            while a < 4
                invariant
                    a <= 4,
                    m == 1u64 << i,
                    free == !self.holes,
                    closed == (m & free != 0 && forall|b: int| 0 <= b < a ==> self.axis_closed(m, b)),
                decreases 4 - a,
            {
                let ok = shift(a, m) & free == 0 || shift(a + 4, m) & free == 0;
                assert(ok == self.axis_closed(m, a as int));
                closed = closed && ok;
                assert(closed == (m & free != 0 && forall|b: int| 0 <= b < a + 1 ==> self.axis_closed(m, b))) by {
                    if closed {
                        assert forall|b: int| 0 <= b < a + 1 implies self.axis_closed(m, b) by {
                            if b < a {
                            }
                        }
                    }
                }
                a = a + 1;
            }
            assert(closed == self.is_corner(i));
            let old_acc = acc;
            if closed {
                acc = acc | m;
            }
            assert forall|j: u64| j <= i implies (has_bit(acc, j) <==> self.is_corner(j)) by {
                lemma_set_bit(old_acc, i, j);
            }
            assert forall|j: u64| i + 1 <= j < 64 implies !has_bit(acc, j) by {
                lemma_set_bit(old_acc, i, j);
            }
            i = i + 1;
        }
        acc
    }
}

/// A single bit is its own highest bit.
pub proof fn lemma_top_single(x: u64)
    requires
        is_single(x),
    ensures
        top_bit(x) == x,
        x ^ top_bit(x) == 0,
{
    lemma_top_bit(x);
    let t = top_bit(x);
    assert(x != 0 && x & sub_one(x) == 0 && t != 0 && t & sub_one(t) == 0 && x & t == t ==> t
        == x) by (bit_vector);
    assert(x ^ x == 0) by (bit_vector);
}

/// Iterates over the bits of a move set, highest bit first.
pub struct Moves(pub u64);

/// The highest bit of a non-zero value is one of its bits, a single one, and
/// taking it out leaves a smaller value.
pub proof fn lemma_top_bit(x: u64)
    requires
        x != 0,
    ensures
        x & top_bit(x) == top_bit(x),
        is_single(top_bit(x)),
        x ^ top_bit(x) < x,
{
    vstd::std_specs::bits::axiom_u64_leading_zeros(x);
    let z = vstd::std_specs::bits::u64_leading_zeros(x);
    let k: u64 = (63 - z) as u64;
    assert((x >> k) & 1 != 0 ==> x & (1u64 << k) == (1u64 << k)) by (bit_vector)
        requires
            k < 64,
    ;
    assert(k < 64 ==> (1u64 << k) != 0 && (1u64 << k) & (((1u64 << k) - 1u64) as u64) == 0) by (bit_vector);
    assert(x & (1u64 << k) == (1u64 << k) && k < 64 ==> x ^ (1u64 << k) < x) by (bit_vector);
}

impl Moves {
    /// Takes the highest remaining move out of the set.
    pub fn next(&mut self) -> (r: Option<u64>)
        ensures
            old(self).0 == 0 ==> r is None && final(self).0 == 0,
            old(self).0 != 0 ==> r == Some(top_bit(old(self).0)) && final(self).0 == old(self).0
                ^ top_bit(old(self).0),
    {
        if self.0 == 0 {
            None
        } else {
            proof {
                vstd::std_specs::bits::axiom_u64_leading_zeros(self.0);
            }
            let m: u64 = 1u64 << (63 - self.0.leading_zeros());
            self.0 = self.0 ^ m;
            Some(m)
        }
    }
}

/// Number of set bits of `x`.
pub fn count(x: u64) -> (r: u32)
    ensures
        r == pop(x),
        r <= 64,
{
    let mut c: u32 = 0;
    let mut y: u64 = x;
    let mut i: u64 = 0;
    assert(x >> 0u64 == x) by (bit_vector);
    while i < 64
        invariant
            i <= 64,
            c <= i,
            y == x >> i,
            c + pop(y) == pop(x),
        decreases 64 - i,
    {
        assert(y >> 1 == y / 2 && y & 1 == y % 2) by (bit_vector);
        assert((x >> i) >> 1 == x >> ((i + 1) as u64)) by (bit_vector)
            requires
                i < 64,
        ;
        c = c + (y & 1) as u32;
        y = y >> 1;
        i = i + 1;
    }
    assert(x >> 64u64 == 0) by (bit_vector);
    c
}


proof fn lemma_fill_within(d: int, bits: u64, mask: u64, k: nat)
    ensures
        fill_steps(d, bits, mask, k) & mask == fill_steps(d, bits, mask, k),
    decreases k,
{
    if k > 0 {
        lemma_fill_within(d, bits, mask, (k - 1) as nat);
    }
    let f = fill_steps(d, bits, mask, (k - 1) as nat);
    let s = shift_spec(d, bits);
    let t = shift_spec(d, f);
    assert((s & mask) & mask == s & mask) by (bit_vector);
    assert(f & mask == f ==> (f | (t & mask)) & mask == f | (t & mask)) by (bit_vector);
}

proof fn lemma_union_within(t: Seq<u64>, n: nat, mask: u64)
    requires
        n <= t.len(),
        forall|i: int| 0 <= i < n ==> #[trigger] t[i] & mask == t[i],
    ensures
        union_upto(t, n) & mask == union_upto(t, n),
    decreases n,
{
    if n > 0 {
        lemma_union_within(t, (n - 1) as nat, mask);
        let u = union_upto(t, (n - 1) as nat);
        let x = t[n - 1];
        assert(u & mask == u && x & mask == x ==> (u | x) & mask == u | x) by (bit_vector);
    } else {
        assert(0u64 & mask == 0) by (bit_vector);
    }
}

/// A value of at most `n` significant bits has at most `n` set bits.
proof fn lemma_pop_bound(x: u64, n: u64)
    requires
        n <= 64,
        x >> n == 0,
    ensures
        pop(x) <= n,
    decreases n,
{
    assert(x >> 0u64 == x) by (bit_vector);
    if x != 0 {
        assert(x >> 1 == x / 2 && x & 1 == x % 2) by (bit_vector);
        assert(0 < n <= 64 && x >> n == 0 ==> (x >> 1) >> sub_one(n) == 0) by (bit_vector);
        lemma_pop_bound(x / 2, (n - 1) as u64);
    }
}

/// No value has more than 64 set bits.
pub proof fn lemma_pop_le(x: u64)
    ensures
        pop(x) <= 64,
{
    assert(x >> 64u64 == 0) by (bit_vector);
    lemma_pop_bound(x, 64);
}

proof fn lemma_pop_add(x: u64, m: u64)
    requires
        is_single(m),
        x & m == 0,
    ensures
        pop(x | m) == pop(x) + 1,
    decreases m,
{
    let y = x | m;
    assert(y >> 1 == y / 2 && y & 1 == y % 2) by (bit_vector);
    assert(x >> 1 == x / 2 && x & 1 == x % 2) by (bit_vector);
    assert(m >> 1 == m / 2 && m & 1 == m % 2) by (bit_vector);
    assert(y != 0) by (bit_vector)
        requires
            y == x | m,
            m != 0,
    ;
    assert(x == 0 ==> x >> 1 == 0) by (bit_vector);
    if m == 1 {
        assert(x & 1 == 0 ==> ((x | 1) >> 1 == x >> 1 && (x | 1) & 1 == 1 && x & 1 == 0)) by (bit_vector);
    } else {
        assert(m != 0 && m & sub_one(m) == 0 && m != 1 ==> m & 1 == 0 && (m >> 1) != 0 && (m >> 1)
            & sub_one(m >> 1) == 0) by (bit_vector);
        assert(x & m == 0 ==> (x >> 1) & (m >> 1) == 0 && (x | m) >> 1 == (x >> 1) | (m >> 1)
            && (x | m) & 1 == (x & 1) | (m & 1)) by (bit_vector);
        assert(m & 1 == 0 ==> (x & 1) | (m & 1) == x & 1) by (bit_vector);
        lemma_pop_add(x / 2, m / 2);
    }
}

/// `m` minus one, wrapping: only used on non-zero values.
pub open spec fn sub_one(m: u64) -> u64 {
    (m - 1) as u64
}

/// Passing twice gives back the same position.
pub proof fn lemma_pass_pass(b: Board)
    ensures
        b.pass_spec().pass_spec() == b,
{
}

/// Every legal move lies on an open cell.
pub proof fn lemma_moves_open(b: Board)
    ensures
        b.moves_spec() & b.taken() == 0,
{
    let u = union_upto(Seq::new(8, |d: int| b.dir_moves(d)), 8);
    let t = b.taken();
    assert((u & !t) & t == 0) by (bit_vector);
}

/// Playing a legal move fills exactly that cell: the occupied cells grow by
/// the move alone, their number by one, the holes stay and the position stays
/// well formed.
pub proof fn lemma_play_counts(b: Board, m: u64)
    requires
        b.wf(),
        is_single(m),
        m & b.moves_spec() != 0,
    ensures
        ({
            let n = b.play_spec(m);
            &&& n.wf()
            &&& n.holes == b.holes
            &&& n.player | n.opponent == b.player | b.opponent | m
            &&& m & b.taken() == 0
            &&& pop(n.taken()) == pop(b.taken()) + 1
        }),
{
    let t = Seq::new(8, |d: int| b.dir_flips(m, d));
    assert forall|i: int| 0 <= i < 8 implies #[trigger] t[i] & b.opponent == t[i] by {
        lemma_fill_within(i, m, b.opponent, 6);
        assert(0u64 & b.opponent == 0) by (bit_vector);
    }
    lemma_union_within(t, 8, b.opponent);
    lemma_moves_open(b);
    let f = b.flipped_spec(m);
    let mv = b.moves_spec();
    let pl = b.player;
    let op = b.opponent;
    let h = b.holes;
    assert(m != 0 && m & sub_one(m) == 0 && m & mv != 0 && mv & (pl | op | h) == 0 ==> m & (pl
        | op | h) == 0 && (pl | op | h) & m == 0) by (bit_vector);
    assert(f & op == f && m & (pl | op | h) == 0 && pl & op == 0 && (pl | op) & h == 0 ==> {
        &&& (op ^ f) & (pl ^ (f | m)) == 0
        &&& ((op ^ f) | (pl ^ (f | m))) & h == 0
        &&& (op ^ f) | (pl ^ (f | m)) == pl | op | m
        &&& (op ^ f) | (pl ^ (f | m)) | h == (pl | op | h) | m
    }) by (bit_vector);
    lemma_pop_add(pl | op | h, m);
}

} // verus!
