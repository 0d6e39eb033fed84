use vstd::prelude::*;

verus! {

/// Largest count of each of the four heaps.
pub const MAX0: u8 = 1;
pub const MAX1: u8 = 3;
pub const MAX2: u8 = 5;
pub const MAX3: u8 = 7;

/// Number of positions: the product of (bound + 1) over the four heaps.
pub const STATE_COUNT: usize = 384;

/// A position of the game: the counts of the four heaps.
#[derive(Copy, Clone, Debug, PartialEq, Eq, Structural, Hash, PartialOrd, Ord)]
pub struct State(pub u8, pub u8, pub u8, pub u8);

/// The position in which every heap is empty.
pub open spec fn zero_state() -> State {
    State(0, 0, 0, 0)
}

/// Total number of objects left on the board.
pub open spec fn heap_sum(s: State) -> int {
    s.0 as int + s.1 as int + s.2 as int + s.3 as int
}

/// `c` results from `p` by taking one or more objects from exactly one heap.
pub open spec fn child_of(c: State, p: State) -> bool {
    (c.0 < p.0 && c.1 == p.1 && c.2 == p.2 && c.3 == p.3) || (c.0 == p.0 && c.1 < p.1 && c.2
        == p.2 && c.3 == p.3) || (c.0 == p.0 && c.1 == p.1 && c.2 < p.2 && c.3 == p.3) || (c.0
        == p.0 && c.1 == p.1 && c.2 == p.2 && c.3 < p.3)
}

/// Position of `s` in the lexicographic order of all valid states.
pub open spec fn index_of(s: State) -> int {
    ((s.0 as int * 4 + s.1 as int) * 6 + s.2 as int) * 8 + s.3 as int
}

/// The valid state at position `i` of the lexicographic order.
pub open spec fn state_at(i: int) -> State {
    let q3 = i / 8;
    let q2 = q3 / 6;
    State((q2 / 4) as u8, (q2 % 4) as u8, (q3 % 6) as u8, (i % 8) as u8)
}

/// Bit `k` of a heap count.
pub open spec fn bit(v: u8, k: nat) -> int {
    (v as int / vstd::arithmetic::power2::pow2(k) as int) % 2
}

/// Number of odd values in `vs`.
pub open spec fn odd_count(vs: Seq<u8>) -> int
    decreases vs.len(),
{
    if vs.len() == 0 {
        0
    } else {
        odd_count(vs.drop_last()) + vs.last() as int % 2
    }
}

/// Parity of the number of heaps of `s` whose bit `k` is set.
pub open spec fn bit_parity(s: State, k: nat) -> int {
    (bit(s.0, k) + bit(s.1, k) + bit(s.2, k) + bit(s.3, k)) % 2
}

/// The diagnostic parity of a state: one parity per bit 0, 1 and 2, summed.
pub open spec fn parity_spec(s: State) -> int {
    bit_parity(s, 0) + bit_parity(s, 1) + bit_parity(s, 2)
}

impl State {
    /// Every heap is within its bound.
    pub open spec fn valid(self) -> bool {
        self.0 <= MAX0 && self.1 <= MAX1 && self.2 <= MAX2 && self.3 <= MAX3
    }

    pub fn is_child_of(&self, parent: State) -> (r: bool)
        ensures
            r == child_of(*self, parent),
    {
        (self.0 < parent.0 && self.1 == parent.1 && self.2 == parent.2 && self.3 == parent.3)
            || (self.0 == parent.0 && self.1 < parent.1 && self.2 == parent.2 && self.3
            == parent.3) || (self.0 == parent.0 && self.1 == parent.1 && self.2 < parent.2
            && self.3 == parent.3) || (self.0 == parent.0 && self.1 == parent.1 && self.2
            == parent.2 && self.3 < parent.3)
    }

    pub fn parity(&self) -> (r: u8)
        ensures
            r == parity_spec(*self),
            r <= 3,
    {
        let ones = [self.0, self.1, self.2, self.3];
        let twos = [self.0 >> 1, self.1 >> 1, self.2 >> 1, self.3 >> 1];
        let fours = [self.0 >> 2, self.1 >> 2, self.2 >> 2, self.3 >> 2];
        let parity_1 = parity_ones(&ones);
        let parity_2 = parity_ones(&twos);
        let parity_4 = parity_ones(&fours);
        proof {
            lemma_shift_bits(self.0);
            lemma_shift_bits(self.1);
            lemma_shift_bits(self.2);
            lemma_shift_bits(self.3);
            lemma_odd_count_four(ones@);
            lemma_odd_count_four(twos@);
            lemma_odd_count_four(fours@);
        }
        parity_1 + parity_2 + parity_4
    }
}

proof fn lemma_shift_bits(v: u8)
    ensures
        v % 2 == bit(v, 0),
        (v >> 1u8) % 2 == bit(v, 1),
        (v >> 2u8) % 2 == bit(v, 2),
{
    vstd::arithmetic::power2::lemma2_to64();
    assert(v >> 1u8 == v / 2) by (bit_vector);
    assert(v >> 2u8 == v / 4) by (bit_vector);
}

proof fn lemma_odd_count_four(vs: Seq<u8>)
    requires
        vs.len() == 4,
    ensures
        odd_count(vs) == vs[0] % 2 + vs[1] % 2 + vs[2] % 2 + vs[3] % 2,
{
    reveal_with_fuel(odd_count, 5);
    assert(vs.drop_last().drop_last().drop_last().drop_last().len() == 0);
}

/// Parity of the number of odd values among `values`.
pub fn parity_ones(values: &[u8]) -> (r: u8)
    ensures
        r == odd_count(values@) % 2,
{
    let mut s: u8 = 0;
    let mut i: usize = 0;
    while i < values.len()
        invariant
            i <= values@.len(),
            s == odd_count(values@.take(i as int)) % 2,
        decreases values@.len() - i,
    {
        let v = values[i];
        assert(values@.take(i + 1).drop_last() =~= values@.take(i as int));
        assert(v & 1 == v % 2) by (bit_vector);
        s = (s + (v & 1)) % 2;
        i = i + 1;
    }
    assert(values@.take(i as int) =~= values@);
    s
}

/// The state at position `i` of the lexicographic order.
pub fn state_at_index(i: usize) -> (r: State)
    requires
        i < STATE_COUNT,
    ensures
        r == state_at(i as int),
        r.valid(),
        index_of(r) == i,
{
    proof {
        lemma_index_round_trip();
    }
    let q3 = i / 8;
    let q2 = q3 / 6;
    State((q2 / 4) as u8, (q2 % 4) as u8, (q3 % 6) as u8, (i % 8) as u8)
}

/// Position of `s` in the lexicographic order of all valid states.
pub fn index_of_state(s: State) -> (r: usize)
    requires
        s.valid(),
    ensures
        r == index_of(s),
        r < STATE_COUNT,
{
    ((s.0 as usize * 4 + s.1 as usize) * 6 + s.2 as usize) * 8 + s.3 as usize
}

proof fn lemma_state_at_index_of(s: State)
    requires
        s.valid(),
    ensures
        state_at(index_of(s)) == s,
        0 <= index_of(s) < STATE_COUNT,
{
    let i = index_of(s);
    let q2 = s.0 as int * 4 + s.1 as int;
    let q3 = q2 * 6 + s.2 as int;
    vstd::arithmetic::div_mod::lemma_fundamental_div_mod_converse(i, 8, q3, s.3 as int);
    vstd::arithmetic::div_mod::lemma_fundamental_div_mod_converse(q3, 6, q2, s.2 as int);
    vstd::arithmetic::div_mod::lemma_fundamental_div_mod_converse(q2, 4, s.0 as int, s.1 as int);
}

proof fn lemma_index_of_state_at(i: int)
    requires
        0 <= i < STATE_COUNT,
    ensures
        state_at(i).valid(),
        index_of(state_at(i)) == i,
{
    let q3 = i / 8;
    let q2 = q3 / 6;
    vstd::arithmetic::div_mod::lemma_fundamental_div_mod(i, 8);
    vstd::arithmetic::div_mod::lemma_fundamental_div_mod(q3, 6);
    vstd::arithmetic::div_mod::lemma_fundamental_div_mod(q2, 4);
}

/// Lexicographic position and state at a position are inverse bijections
/// between the valid states and `0..STATE_COUNT`.
pub proof fn lemma_index_round_trip()
    ensures
        forall|s: State| #[trigger]
            s.valid() ==> state_at(index_of(s)) == s && 0 <= index_of(s) < STATE_COUNT,
        forall|i: int|
            0 <= i < STATE_COUNT ==> (#[trigger] state_at(i)).valid() && index_of(state_at(i))
                == i,
{
    assert forall|s: State| #[trigger] s.valid() implies state_at(index_of(s)) == s && 0
        <= index_of(s) < STATE_COUNT by {
        lemma_state_at_index_of(s);
    }
    assert forall|i: int| 0 <= i < STATE_COUNT implies (#[trigger] state_at(i)).valid()
        && index_of(state_at(i)) == i by {
        lemma_index_of_state_at(i);
    }
}

/// A move lowers the lexicographic position and the number of objects on the board.
pub proof fn lemma_child_precedes(c: State, p: State)
    requires
        child_of(c, p),
    ensures
        index_of(c) < index_of(p),
        heap_sum(c) < heap_sum(p),
{
}

} // verus!
