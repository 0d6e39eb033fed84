use vstd::prelude::*;

use crate::state::{
    child_of, heap_sum, index_of, index_of_state, lemma_child_precedes, lemma_index_round_trip,
    state_at, state_at_index, zero_state, State, STATE_COUNT,
};

verus! {

/// The class of a position: `Unknown` until backward induction settles it.
#[derive(Copy, Clone, Debug, PartialEq, Eq, Structural)]
pub enum Conclusion {
    Winning,
    Losing,
    Unknown,
}

/// The classification of every valid state, stored at the state's lexicographic position.
pub struct SolutionMap {
    table: Vec<Conclusion>,
}

/// The valid states.
pub open spec fn all_valid() -> Set<State> {
    Set::new(|s: State| s.valid())
}

/// The valid states reached from `p` by one move.
pub open spec fn children(p: State) -> Set<State> {
    Set::new(|c: State| c.valid() && child_of(c, p))
}

/// The valid states from which one move reaches `c`.
pub open spec fn parents(c: State) -> Set<State> {
    Set::new(|p: State| p.valid() && child_of(c, p))
}

/// The states that `m` classifies as `v`.
pub open spec fn states_with(m: Map<State, Conclusion>, v: Conclusion) -> Set<State> {
    Set::new(|s: State| m.dom().contains(s) && m[s] == v)
}

/// `r` lists the members of `set` once each, in lexicographic order.
pub open spec fn enumerates(r: Seq<State>, set: Set<State>) -> bool {
    &&& forall|i: int, j: int| 0 <= i < j < r.len() ==> index_of(r[i]) < index_of(r[j])
    &&& forall|i: int| 0 <= i < r.len() ==> #[trigger] set.contains(r[i])
    &&& forall|s: State| #[trigger] set.contains(s) ==> r.contains(s)
}

/// No state of `m` is still `Unknown`.
pub open spec fn solved(m: Map<State, Conclusion>) -> bool {
    forall|s: State| #[trigger] m.dom().contains(s) ==> m[s] != Conclusion::Unknown
}

/// Every state that is classified in `old` keeps its class in `new`.
pub open spec fn keeps_known(old: Map<State, Conclusion>, new: Map<State, Conclusion>) -> bool {
    &&& new.dom() == old.dom()
    &&& forall|s: State|
        #[trigger] old.dom().contains(s) && old[s] != Conclusion::Unknown ==> new[s] == old[s]
}

/// The classification rules hold of every state that `m` has classified: the empty
/// board is `Losing`; every child of a `Winning` state is `Losing`; every other
/// `Losing` state has a `Winning` child.
pub open spec fn consistent(m: Map<State, Conclusion>) -> bool {
    &&& m.dom() == all_valid()
    &&& m[zero_state()] == Conclusion::Losing
    &&& forall|s: State, c: State|
        #[trigger] children(s).contains(c) && m.dom().contains(s) && m[s] == Conclusion::Winning
            ==> m[c] == Conclusion::Losing
    &&& forall|s: State|
        #[trigger] m.dom().contains(s) && m[s] == Conclusion::Losing && s != zero_state()
            ==> exists|c: State| #[trigger] children(s).contains(c) && m[c] == Conclusion::Winning
}

/// Number of `Unknown` entries.
pub open spec fn count_unknown(t: Seq<Conclusion>) -> nat
    decreases t.len(),
{
    if t.len() == 0 {
        0
    } else {
        count_unknown(t.drop_last()) + if t.last() == Conclusion::Unknown {
            1nat
        } else {
            0nat
        }
    }
}

proof fn lemma_count_unknown(a: Seq<Conclusion>, b: Seq<Conclusion>, i: int)
    requires
        a.len() == b.len(),
        forall|k: int| 0 <= k < a.len() && a[k] != Conclusion::Unknown ==> b[k] == a[k],
    ensures
        count_unknown(b) <= count_unknown(a),
        0 <= i < a.len() && a[i] == Conclusion::Unknown && b[i] != Conclusion::Unknown
            ==> count_unknown(b) < count_unknown(a),
    decreases a.len(),
{
    if a.len() > 0 {
        lemma_count_unknown(a.drop_last(), b.drop_last(), i);
    }
}

proof fn lemma_mark_winning(m: Map<State, Conclusion>, s: State)
    requires
        consistent(m),
        s.valid(),
        m[s] == Conclusion::Unknown,
        forall|c: State| #[trigger] children(s).contains(c) ==> m[c] == Conclusion::Losing,
    ensures
        consistent(m.insert(s, Conclusion::Winning)),
{
    let n = m.insert(s, Conclusion::Winning);
    assert(n.dom() =~= all_valid());
    assert forall|p: State, c: State|
        #[trigger] children(p).contains(c) && n.dom().contains(p) && n[p] == Conclusion::Winning
            implies n[c] == Conclusion::Losing by {
        if p != s {
            assert(m[c] == Conclusion::Losing);
        }
    }
    assert forall|p: State|
        #[trigger] n.dom().contains(p) && n[p] == Conclusion::Losing && p != zero_state()
            implies exists|c: State| #[trigger] children(p).contains(c) && n[c] == Conclusion::Winning by {
        let c = choose|c: State| #[trigger] children(p).contains(c) && m[c] == Conclusion::Winning;
        assert(n[c] == Conclusion::Winning);
    }
}

proof fn lemma_mark_losing(m: Map<State, Conclusion>, p: State, w: State)
    requires
        consistent(m),
        m[w] == Conclusion::Winning,
        parents(w).contains(p),
    ensures
        m[p] != Conclusion::Winning,
        consistent(m.insert(p, Conclusion::Losing)),
{
    assert(children(p).contains(w));
    let n = m.insert(p, Conclusion::Losing);
    assert(n.dom() =~= all_valid());
    assert forall|s: State, c: State|
        #[trigger] children(s).contains(c) && n.dom().contains(s) && n[s] == Conclusion::Winning
            implies n[c] == Conclusion::Losing by {
        assert(m[c] == Conclusion::Losing);
    }
    assert forall|s: State|
        #[trigger] n.dom().contains(s) && n[s] == Conclusion::Losing && s != zero_state()
            implies exists|c: State| #[trigger] children(s).contains(c) && n[c] == Conclusion::Winning by {
        if s == p {
            assert(children(s).contains(w) && n[w] == Conclusion::Winning);
        } else {
            let c = choose|c: State| #[trigger] children(s).contains(c) && m[c] == Conclusion::Winning;
            assert(n[c] == Conclusion::Winning);
        }
    }
}

impl View for SolutionMap {
    type V = Map<State, Conclusion>;

    closed spec fn view(&self) -> Map<State, Conclusion> {
        Map::new(|s: State| s.valid(), |s: State| self.table@[index_of(s)])
    }
}

impl SolutionMap {
    /// The table holds one entry per valid state.
    pub closed spec fn wf(&self) -> bool {
        self.table@.len() == STATE_COUNT
    }

    /// The table is keyed by exactly the valid states.
    pub proof fn lemma_domain(&self)
        ensures
            self@.dom() == all_valid(),
    {
        assert(self@.dom() =~= all_valid());
    }

    /// Every state `Unknown` but the empty board, which is `Losing`.
    pub fn new() -> (r: Self)
        ensures
            r.wf(),
            r@.dom() == all_valid(),
            consistent(r@),
            forall|s: State|
                #[trigger] s.valid() ==> r@[s] == (if s == zero_state() {
                    Conclusion::Losing
                } else {
                    Conclusion::Unknown
                }),
    {
        let mut table: Vec<Conclusion> = Vec::new();
        let mut i: usize = 0;
        while i < STATE_COUNT
            invariant
                i <= STATE_COUNT,
                table@.len() == i,
                forall|k: int| 0 <= k < i ==> table@[k] == Conclusion::Unknown,
            decreases STATE_COUNT - i,
        {
            table.push(Conclusion::Unknown);
            i = i + 1;
        }
        table.set(0, Conclusion::Losing);
        let r = SolutionMap { table };
        proof {
            r.lemma_domain();
            lemma_index_round_trip();
            assert(r@[zero_state()] == Conclusion::Losing) by {
                assert(index_of(zero_state()) == 0);
            }
            assert forall|s: State| #[trigger] s.valid() implies r@[s] == (if s == zero_state() {
                Conclusion::Losing
            } else {
                Conclusion::Unknown
            }) by {
                if s != zero_state() {
                    assert(index_of(s) != 0) by {
                        assert(state_at(index_of(s)) == s);
                    }
                }
            }
        }
        r
    }

    /// Sets the class of `s` to `v`.
    pub fn mark(&mut self, s: State, v: Conclusion)
        requires
            old(self).wf(),
            s.valid(),
        ensures
            final(self).wf(),
            final(self)@ == old(self)@.insert(s, v),
    {
        let i = index_of_state(s);
        self.table.set(i, v);
        proof {
            lemma_index_round_trip();
            assert(self@ =~= old(self)@.insert(s, v)) by {
                assert forall|t: State| #[trigger] t.valid() && t != s implies index_of(t)
                    != index_of(s) by {
                    assert(state_at(index_of(t)) == t);
                }
            }
        }
    }

    /// The class of `s`.
    pub fn conclusion(&self, s: State) -> (r: Conclusion)
        requires
            self.wf(),
            s.valid(),
        ensures
            r == self@[s],
    {
        self.table[index_of_state(s)]
    }

    pub fn is_losing(&self, s: State) -> (r: bool)
        requires
            self.wf(),
            s.valid(),
        ensures
            r == (self@[s] == Conclusion::Losing),
    {
        self.table[index_of_state(s)] == Conclusion::Losing
    }

    pub fn is_winning(&self, s: State) -> (r: bool)
        requires
            self.wf(),
            s.valid(),
        ensures
            r == (self@[s] == Conclusion::Winning),
    {
        self.table[index_of_state(s)] == Conclusion::Winning
    }

    /// The states classified `v`, in lexicographic order.
    fn states_classified(&self, v: Conclusion) -> (r: Vec<State>)
        requires
            self.wf(),
        ensures
            enumerates(r@, states_with(self@, v)),
    {
        let mut r: Vec<State> = Vec::new();
        let mut i: usize = 0;
        proof {
            lemma_index_round_trip();
        }
        while i < STATE_COUNT
            invariant
                self.wf(),
                i <= STATE_COUNT,
                forall|a: int, b: int| 0 <= a < b < r@.len() ==> index_of(r@[a]) < index_of(r@[b]),
                forall|k: int| 0 <= k < r@.len() ==> #[trigger] states_with(self@, v).contains(r@[k]),
                forall|k: int| 0 <= k < r@.len() ==> index_of(#[trigger] r@[k]) < i,
                forall|s: State|
                    #[trigger] states_with(self@, v).contains(s) && index_of(s) < i
                        ==> r@.contains(s),
                forall|s: State| #[trigger]
                    s.valid() ==> state_at(index_of(s)) == s && 0 <= index_of(s) < STATE_COUNT,
            decreases STATE_COUNT - i,
        {
            let s = state_at_index(i);
            let ghost old_r = r@;
            if self.table[i] == v {
                r.push(s);
                assert(r@[r@.len() - 1] == s);
            }
            proof {
                assert(self@[s] == self.table@[i as int]);
                assert forall|t: State| #[trigger]
                    states_with(self@, v).contains(t) && index_of(t) < i + 1 implies r@.contains(
                    t) by {
                    if index_of(t) < i {
                        assert(old_r.contains(t));
                        let k = choose|k: int| 0 <= k < old_r.len() && old_r[k] == t;
                        assert(r@[k] == t);
                    } else {
                        assert(state_at(index_of(t)) == t);
                        assert(r@[r@.len() - 1] == t);
                    }
                }
            }
            i = i + 1;
        }
        r
    }

    /// The valid states one move below `pivot` (`upward` false), or one move above it
    /// (`upward` true), in lexicographic order.
    fn neighbours(&self, pivot: State, upward: bool) -> (r: Vec<State>)
        requires
            self.wf(),
        ensures
            enumerates(r@, if upward { parents(pivot) } else { children(pivot) }),
    {
        let ghost set = if upward { parents(pivot) } else { children(pivot) };
        let mut r: Vec<State> = Vec::new();
        let mut i: usize = 0;
        proof {
            lemma_index_round_trip();
        }
        while i < STATE_COUNT
            invariant
                self.wf(),
                i <= STATE_COUNT,
                set == if upward { parents(pivot) } else { children(pivot) },
                forall|a: int, b: int| 0 <= a < b < r@.len() ==> index_of(r@[a]) < index_of(r@[b]),
                forall|k: int| 0 <= k < r@.len() ==> #[trigger] set.contains(r@[k]),
                forall|k: int| 0 <= k < r@.len() ==> index_of(#[trigger] r@[k]) < i,
                forall|s: State| #[trigger] set.contains(s) && index_of(s) < i ==> r@.contains(s),
                forall|s: State| #[trigger]
                    s.valid() ==> state_at(index_of(s)) == s && 0 <= index_of(s) < STATE_COUNT,
            decreases STATE_COUNT - i,
        {
            let s = state_at_index(i);
            let ghost old_r = r@;
            let hit = if upward {
                pivot.is_child_of(s)
            } else {
                s.is_child_of(pivot)
            };
            if hit {
                r.push(s);
                assert(r@[r@.len() - 1] == s);
            }
            proof {
                assert forall|t: State| #[trigger] set.contains(t) && index_of(t) < i + 1 implies r@.contains(t) by {
                    if index_of(t) < i {
                        assert(old_r.contains(t));
                        let k = choose|k: int| 0 <= k < old_r.len() && old_r[k] == t;
                        assert(r@[k] == t);
                    } else {
                        assert(state_at(index_of(t)) == t);
                        assert(r@[r@.len() - 1] == t);
                    }
                }
            }
            i = i + 1;
        }
        r
    }

    /// The states one move below `parent`, in lexicographic order.
    pub fn children_of(&self, parent: State) -> (r: Vec<State>)
        requires
            self.wf(),
        ensures
            enumerates(r@, children(parent)),
    {
        self.neighbours(parent, false)
    }

    /// The states one move above `child`, in lexicographic order.
    pub fn parents_of(&self, child: State) -> (r: Vec<State>)
        requires
            self.wf(),
        ensures
            enumerates(r@, parents(child)),
    {
        self.neighbours(child, true)
    }

    /// The states classified `Winning`, in lexicographic order.
    pub fn find_winning_states(&self) -> (r: Vec<State>)
        requires
            self.wf(),
        ensures
            enumerates(r@, states_with(self@, Conclusion::Winning)),
    {
        self.states_classified(Conclusion::Winning)
    }

    /// The states still `Unknown`, in lexicographic order.
    pub fn unsolved(&self) -> (r: Vec<State>)
        requires
            self.wf(),
        ensures
            enumerates(r@, states_with(self@, Conclusion::Unknown)),
    {
        self.states_classified(Conclusion::Unknown)
    }

    /// No state is `Unknown`.
    pub fn is_solved(&self) -> (r: bool)
        requires
            self.wf(),
        ensures
            r == solved(self@),
    {
        let pending = self.unsolved();
        proof {
            if pending@.len() == 0 {
                assert forall|s: State| #[trigger] self@.dom().contains(s) implies self@[s]
                    != Conclusion::Unknown by {
                    if self@[s] == Conclusion::Unknown {
                        assert(states_with(self@, Conclusion::Unknown).contains(s));
                    }
                }
            } else {
                assert(states_with(self@, Conclusion::Unknown).contains(pending@[0]));
            }
        }
        pending.len() == 0
    }
    /// Number of states still `Unknown`.
    pub closed spec fn unknown_count(&self) -> nat {
        count_unknown(self.table@)
    }

    proof fn lemma_progress(start: &Self, end: &Self, s: State)
        requires
            start.wf(),
            end.wf(),
            keeps_known(start@, end@),
            s.valid(),
        ensures
            end.unknown_count() <= start.unknown_count(),
            start@[s] == Conclusion::Unknown && end@[s] != Conclusion::Unknown
                ==> end.unknown_count() < start.unknown_count(),
    {
        lemma_index_round_trip();
        assert forall|k: int|
            0 <= k < start.table@.len() && start.table@[k] != Conclusion::Unknown
                implies end.table@[k] == start.table@[k] by {
            assert(start@.dom().contains(state_at(k)));
        }
        lemma_count_unknown(start.table@, end.table@, index_of(s));
    }

    /// Every entry of `states` is `Losing`.
    fn all_losing(&self, states: &Vec<State>) -> (r: bool)
        requires
            self.wf(),
            forall|i: int| 0 <= i < states@.len() ==> (#[trigger] states@[i]).valid(),
        ensures
            r == forall|i: int|
                0 <= i < states@.len() ==> self@[#[trigger] states@[i]] == Conclusion::Losing,
    {
        let mut i: usize = 0;
        while i < states.len()
            invariant
                self.wf(),
                i <= states@.len(),
                forall|k: int| 0 <= k < states@.len() ==> (#[trigger] states@[k]).valid(),
                forall|k: int| 0 <= k < i ==> self@[#[trigger] states@[k]] == Conclusion::Losing,
            decreases states@.len() - i,
        {
            if !self.is_losing(states[i]) {
                return false;
            }
            i = i + 1;
        }
        true
    }

    /// One round of backward induction. First every `Unknown` state all of whose
    /// children are `Losing` becomes `Winning`; then every parent of a `Winning` state
    /// becomes `Losing`. Classified states keep their class, and while any state is
    /// `Unknown`, at least one of them gets classified.
    pub fn solve_round(&mut self)
        requires
            old(self).wf(),
            consistent(old(self)@),
        ensures
            final(self).wf(),
            consistent(final(self)@),
            keeps_known(old(self)@, final(self)@),
            final(self).unknown_count() <= old(self).unknown_count(),
            !solved(old(self)@) ==> final(self).unknown_count() < old(self).unknown_count(),
            solved(old(self)@) ==> final(self)@ == old(self)@,
    {
        let ghost start = *self;
        let pending = self.unsolved();
        let ghost first = if pending@.len() > 0 { pending@[0] } else { zero_state() };
        proof {
            lemma_index_round_trip();
            if !solved(start@) {
                let u = choose|u: State| #[trigger] start@.dom().contains(u) && start@[u] == Conclusion::Unknown;
                assert(states_with(start@, Conclusion::Unknown).contains(u));
                assert(pending@.len() > 0);
            }
            if pending@.len() > 0 {
                assert(states_with(start@, Conclusion::Unknown).contains(first));
                assert forall|c: State| #[trigger] children(first).contains(c) implies start@[c]
                    != Conclusion::Unknown by {
                    lemma_child_precedes(c, first);
                    if start@[c] == Conclusion::Unknown {
                        assert(states_with(start@, Conclusion::Unknown).contains(c));
                        let k = choose|k: int| 0 <= k < pending@.len() && pending@[k] == c;
                        assert(states_with(start@, Conclusion::Unknown).contains(pending@[k]));
                        if k > 0 {
                            assert(index_of(pending@[0]) < index_of(pending@[k]));
                        }
                    }
                }
            }
        }
        proof {
            assert forall|j: int| 0 <= j < pending@.len() implies self@[#[trigger] pending@[j]]
                == Conclusion::Unknown by {
                assert(states_with(start@, Conclusion::Unknown).contains(pending@[j]));
            }
        }
        let mut k: usize = 0;
        while k < pending.len()
            invariant
                self.wf(),
                consistent(self@),
                keeps_known(start@, self@),
                start.wf(),
                consistent(start@),
                enumerates(pending@, states_with(start@, Conclusion::Unknown)),
                k <= pending@.len(),
                forall|s: State|
                    #[trigger] self@.dom().contains(s) && self@[s] != start@[s] ==> start@[s]
                        == Conclusion::Unknown && self@[s] == Conclusion::Winning,
                forall|j: int| k <= j < pending@.len() ==> self@[#[trigger] pending@[j]] == Conclusion::Unknown,
                pending@.len() > 0 ==> first == pending@[0],
                pending@.len() > 0 ==> forall|c: State| #[trigger] children(first).contains(c) ==> start@[c] != Conclusion::Unknown,
                k > 0 ==> self@[first] == Conclusion::Winning || exists|c: State|
                    #[trigger] children(first).contains(c) && start@[c] == Conclusion::Winning,
            decreases pending@.len() - k,
        {
            let s = pending[k];
            assert(states_with(start@, Conclusion::Unknown).contains(pending@[k as int]));
            let kids = self.children_of(s);
            proof {
                assert forall|i: int| 0 <= i < kids@.len() implies (#[trigger] kids@[i]).valid() by {
                    assert(children(s).contains(kids@[i]));
                }
            }
            let ghost before = *self;
            if self.all_losing(&kids) {
                proof {
                    assert forall|c: State| #[trigger] children(s).contains(c) implies self@[c] == Conclusion::Losing by {
                        let i = choose|i: int| 0 <= i < kids@.len() && kids@[i] == c;
                    }
                    lemma_mark_winning(self@, s);
                }
                self.mark(s, Conclusion::Winning);
            } else if k == 0 {
                proof {
                    let i = choose|i: int| 0 <= i < kids@.len() && self@[kids@[i]] != Conclusion::Losing;
                    let c = kids@[i];
                    assert(children(first).contains(c));
                    assert(start@.dom().contains(c));
                    assert(start@[c] != Conclusion::Unknown);
                    assert(start@[c] == Conclusion::Winning);
                }
            }
            proof {
                assert forall|j: int| k + 1 <= j < pending@.len() implies self@[#[trigger] pending@[j]] == Conclusion::Unknown by {
                    assert(index_of(pending@[k as int]) < index_of(pending@[j]));
                    assert(before@[pending@[j]] == Conclusion::Unknown);
                }
            }
            k = k + 1;
        }
        let ghost middle = *self;
        let winning = self.find_winning_states();
        let mut w: usize = 0;
        while w < winning.len()
            invariant
                self.wf(),
                consistent(self@),
                keeps_known(start@, self@),
                start.wf(),
                middle.wf(),
                keeps_known(start@, middle@),
                enumerates(winning@, states_with(middle@, Conclusion::Winning)),
                w <= winning@.len(),
                forall|s: State| #[trigger] self@.dom().contains(s) ==> (self@[s] == Conclusion::Winning <==> middle@[s] == Conclusion::Winning),
                forall|j: int, p: State| 0 <= j < w && #[trigger] parents(winning@[j]).contains(p) ==> self@[p] == Conclusion::Losing,
            decreases winning@.len() - w,
        {
            let win = winning[w];
            assert(states_with(middle@, Conclusion::Winning).contains(winning@[w as int]));
            let ups = self.parents_of(win);
            let mut i: usize = 0;
            while i < ups.len()
                invariant
                    self.wf(),
                    consistent(self@),
                    keeps_known(start@, self@),
                    w < winning@.len(),
                    win == winning@[w as int],
                    self@[win] == Conclusion::Winning,
                    enumerates(ups@, parents(win)),
                    i <= ups@.len(),
                    forall|s: State| #[trigger] self@.dom().contains(s) ==> (self@[s] == Conclusion::Winning <==> middle@[s] == Conclusion::Winning),
                    forall|j: int, p: State| 0 <= j < w && #[trigger] parents(winning@[j]).contains(p) ==> self@[p] == Conclusion::Losing,
                    forall|j: int| 0 <= j < i ==> self@[#[trigger] ups@[j]] == Conclusion::Losing,
                decreases ups@.len() - i,
            {
                let up = ups[i];
                assert(parents(win).contains(ups@[i as int]));
                proof {
                    lemma_mark_losing(self@, up, win);
                }
                self.mark(up, Conclusion::Losing);
                i = i + 1;
            }
            proof {
                assert forall|j: int, p: State| 0 <= j < w + 1 && #[trigger] parents(winning@[j]).contains(p) implies self@[p] == Conclusion::Losing by {
                    if j == w {
                        let q = choose|q: int| 0 <= q < ups@.len() && ups@[q] == p;
                        assert(self@[ups@[q]] == Conclusion::Losing);
                    }
                }
            }
            w = w + 1;
        }
        proof {
            if !solved(start@) {
                if middle@[first] != Conclusion::Winning {
                    let c = choose|c: State| #[trigger] children(first).contains(c) && start@[c] == Conclusion::Winning;
                    assert(start@.dom().contains(c));
                    assert(states_with(middle@, Conclusion::Winning).contains(c));
                    let j = choose|j: int| 0 <= j < winning@.len() && winning@[j] == c;
                    assert(parents(winning@[j]).contains(first));
                }
                Self::lemma_progress(&start, self, first);
            } else {
                Self::lemma_progress(&start, self, zero_state());
                assert(self@ =~= start@);
            }
        }
    }

    /// Runs rounds until no state is `Unknown`. States that were classified keep
    /// their class; in particular a table that is already solved stays as it is.
    pub fn solve(&mut self)
        requires
            old(self).wf(),
            consistent(old(self)@),
        ensures
            final(self).wf(),
            consistent(final(self)@),
            solved(final(self)@),
            final(self)@[zero_state()] == Conclusion::Losing,
            keeps_known(old(self)@, final(self)@),
            solved(old(self)@) ==> final(self)@ == old(self)@,
    {
        let ghost start = self@;
        while !self.is_solved()
            invariant
                self.wf(),
                consistent(self@),
                keeps_known(start, self@),
            decreases self.unknown_count(),
        {
            self.solve_round();
        }
        proof {
            if solved(start) {
                assert(self@ =~= start);
            }
        }
    }
    /// Every valid state, in lexicographic order.
    pub fn all_states(&self) -> (r: Vec<State>)
        requires
            self.wf(),
        ensures
            enumerates(r@, all_valid()),
            r@.len() == STATE_COUNT,
    {
        let mut r: Vec<State> = Vec::new();
        let mut i: usize = 0;
        proof {
            lemma_index_round_trip();
        }
        while i < STATE_COUNT
            invariant
                i <= STATE_COUNT,
                r@.len() == i,
                forall|k: int| 0 <= k < i ==> #[trigger] r@[k] == state_at(k),
                forall|s: State| #[trigger]
                    s.valid() ==> state_at(index_of(s)) == s && 0 <= index_of(s) < STATE_COUNT,
                forall|k: int|
                    0 <= k < STATE_COUNT ==> (#[trigger] state_at(k)).valid() && index_of(state_at(k)) == k,
            decreases STATE_COUNT - i,
        {
            r.push(state_at_index(i));
            i = i + 1;
        }
        proof {
            assert forall|s: State| #[trigger] all_valid().contains(s) implies r@.contains(s) by {
                assert(r@[index_of(s)] == s);
            }
            assert forall|k: int| 0 <= k < r@.len() implies #[trigger] all_valid().contains(r@[k]) by {
                assert(r@[k] == state_at(k));
            }
        }
        r
    }
}

/// In a solved, consistent table every state other than the empty board is `Winning`
/// exactly when all its children are `Losing`, and `Losing` exactly when one of its
/// children is `Winning`; exactly one of the two holds.
pub proof fn lemma_classification(m: Map<State, Conclusion>, s: State)
    requires
        consistent(m),
        solved(m),
        s.valid(),
        s != zero_state(),
    ensures
        m[s] == Conclusion::Winning <==> forall|c: State| #[trigger] children(s).contains(c)
            ==> m[c] == Conclusion::Losing,
        m[s] == Conclusion::Losing <==> exists|c: State| #[trigger] children(s).contains(c)
            && m[c] == Conclusion::Winning,
        (m[s] == Conclusion::Winning) != (m[s] == Conclusion::Losing),
{
    assert(m.dom().contains(s));
    if forall|c: State| #[trigger] children(s).contains(c) ==> m[c] == Conclusion::Losing {
        if m[s] == Conclusion::Losing {
            let c = choose|c: State| #[trigger] children(s).contains(c) && m[c] == Conclusion::Winning;
        }
    }
}

/// Two solved, consistent tables are equal: the rules leave one classification.
pub proof fn lemma_solution_unique(a: Map<State, Conclusion>, b: Map<State, Conclusion>)
    requires
        consistent(a),
        solved(a),
        consistent(b),
        solved(b),
    ensures
        a == b,
{
    assert forall|s: State| #[trigger] a.dom().contains(s) implies a[s] == b[s] by {
        lemma_agree_at(a, b, s);
    }
    assert(a =~= b);
}

proof fn lemma_agree_at(a: Map<State, Conclusion>, b: Map<State, Conclusion>, s: State)
    requires
        consistent(a),
        solved(a),
        consistent(b),
        solved(b),
        s.valid(),
    ensures
        a[s] == b[s],
    decreases heap_sum(s),
{
    if s != zero_state() {
        assert forall|c: State| #[trigger] children(s).contains(c) implies a[c] == b[c] by {
            lemma_child_precedes(c, s);
            lemma_agree_at(a, b, c);
        }
        lemma_classification(a, s);
        lemma_classification(b, s);
        assert(a.dom().contains(s) && b.dom().contains(s));
    }
}

/// `c` is among the children of `p` exactly when `p` is among the parents of `c`.
pub proof fn lemma_children_parents_inverse(c: State, p: State)
    requires
        c.valid(),
        p.valid(),
    ensures
        children(p).contains(c) <==> parents(c).contains(p),
{
}

/// `path` is a sequence of at least two states, each reached from the one before by a move.
pub open spec fn is_descent(path: Seq<State>) -> bool {
    &&& path.len() >= 2
    &&& forall|i: int| 0 <= i < path.len() - 1 ==> child_of(#[trigger] path[i + 1], path[i])
}

/// The move graph has no cycle: a sequence of moves never returns to its start.
pub proof fn lemma_acyclic(path: Seq<State>)
    requires
        is_descent(path),
    ensures
        path.last() != path[0],
{
    lemma_descent_shrinks(path);
}

proof fn lemma_descent_shrinks(path: Seq<State>)
    requires
        is_descent(path),
    ensures
        heap_sum(path.last()) < heap_sum(path[0]),
    decreases path.len(),
{
    let n = path.len() - 1;
    assert(child_of(path[(n - 1) + 1], path[n - 1]));
    lemma_child_precedes(path[n], path[n - 1]);
    if path.len() > 2 {
        let shorter = path.drop_last();
        assert forall|i: int| 0 <= i < shorter.len() - 1 implies child_of(#[trigger] shorter[i + 1], shorter[i]) by {
            assert(child_of(path[i + 1], path[i]));
        }
        lemma_descent_shrinks(shorter);
    }
}

} // verus!
