//! Subset construction: deterministic automata over canonical subsets of
//! NFA states.
//!
//! A DFA state stands for a canonical (strictly sorted) vector of NFA state
//! identifiers.  Scalars with no labelled edge follow a per-state default
//! transition; the dead sentinel `DEAD_STATE` is never left once entered.
//! Two interchangeable variants implement the same interface: `DFA` builds
//! every reachable state eagerly, `OnTheFlyDFA` discovers states while
//! scanning and memoizes them.

use vstd::prelude::*;
use vstd::arithmetic::power2::pow2;
use crate::canon::{
    strictly_sorted, iset, elems_ok, lemma_iset, lemma_subset_count, contains_usize, vec_eq,
    sort_dedup, push_all,
};
use crate::nfa::{
    NFA, SpecNfa, nfa_wf, closure_set, assoc_get, dead, DEAD_STATE, eps_edge, eps_reach,
    lemma_reach_refl,
};

verus! {

/// The singleton set holding only the dead sentinel.
pub open spec fn dead_set() -> Set<int> {
    set![dead()]
}

/// What one member of a subset contributes on reading scalar `c`: the
/// epsilon closure of its labelled target if it has one, the closure of its
/// default target otherwise.  A member outside the automaton contributes
/// itself.
pub open spec fn member_step(n: SpecNfa, s: int, c: char) -> Set<int> {
    if 0 <= s < n.states.len() {
        match assoc_get(n.states[s].transitions, c) {
            Some(t) => closure_set(n, t),
            None => closure_set(n, n.states[s].default_transition),
        }
    } else {
        set![s]
    }
}

/// What one member contributes when no scalar is distinguished: the
/// closure of its default target.
pub open spec fn member_default(n: SpecNfa, s: int) -> Set<int> {
    if 0 <= s < n.states.len() {
        closure_set(n, n.states[s].default_transition)
    } else {
        set![s]
    }
}

/// The deterministic step of the subset automaton.
pub open spec fn dstep(n: SpecNfa, qs: Set<int>, c: char) -> Set<int> {
    Set::new(|t: int| exists|s: int| #[trigger] qs.contains(s) && member_step(n, s, c).contains(t))
}

/// The default step of the subset automaton, taken by every scalar that no
/// member holds a labelled transition for.
pub open spec fn dstep_default(n: SpecNfa, qs: Set<int>) -> Set<int> {
    Set::new(|t: int| exists|s: int| #[trigger] qs.contains(s) && member_default(n, s).contains(t))
}

/// The start subset: the epsilon closure of the NFA start state.
pub open spec fn start_set(n: SpecNfa) -> Set<int> {
    closure_set(n, n.start)
}

/// Whether a subset is accepting: it holds the NFA accept state.
pub open spec fn accepting(n: SpecNfa, qs: Set<int>) -> bool {
    qs.contains(n.accept)
}

/// The subset reached from `qs` after reading the whole of `s`.
pub open spec fn drun(n: SpecNfa, qs: Set<int>, s: Seq<char>) -> Set<int>
    decreases s.len(),
{
    if s.len() == 0 {
        qs
    } else {
        dstep(n, drun(n, qs, s.drop_last()), s.last())
    }
}

/// A subset only holds live states or the dead sentinel.
pub open spec fn set_ok(n: SpecNfa, qs: Set<int>) -> bool {
    forall|t: int| #[trigger] qs.contains(t) ==> (0 <= t < n.states.len() || t == dead())
}

/// An epsilon closure stays among the live states, except that a foreign
/// identifier closes to itself.
pub proof fn lemma_closure_bounds(n: SpecNfa, q: int)
    requires
        nfa_wf(n),
    ensures
        forall|t: int| #[trigger] closure_set(n, q).contains(t) ==> (0 <= t < n.states.len() || t
            == q),
{
    if 0 <= q < n.states.len() {
        assert forall|t: int| #[trigger] closure_set(n, q).contains(t) implies (0 <= t
            < n.states.len() || t == q) by {
            let p = choose|p: Seq<int>|
                crate::nfa::is_eps_path(n, p) && p.first() == q && p.last() == t;
            if p.len() == 1 {
            } else {
                assert(eps_edge(n, p[p.len() - 2], p[p.len() - 1]));
            }
        }
    }
}

/// Stepping a well-bounded subset gives a well-bounded subset.
pub proof fn lemma_dstep_ok(n: SpecNfa, qs: Set<int>, c: char)
    requires
        nfa_wf(n),
        set_ok(n, qs),
    ensures
        set_ok(n, dstep(n, qs, c)),
        set_ok(n, dstep_default(n, qs)),
{
    assert forall|t: int| #[trigger] dstep(n, qs, c).contains(t) implies (0 <= t < n.states.len()
        || t == dead()) by {
        let s = choose|s: int| #[trigger] qs.contains(s) && member_step(n, s, c).contains(t);
        assert(member_step(n, s, c).contains(t));
        if 0 <= s < n.states.len() {
            match assoc_get(n.states[s].transitions, c) {
                Some(tt) => {
                    lemma_assoc_get_in(n.states[s].transitions, c);
                    let j = choose|j: int|
                        0 <= j < n.states[s].transitions.len()
                            && #[trigger] n.states[s].transitions[j] == (c, tt);
                    assert(n.states[s].transitions[j].1 == tt);
                    assert(0 <= tt < n.states.len() || tt == dead());
                    lemma_closure_bounds(n, tt);
                    assert(closure_set(n, tt).contains(t));
                },
                None => {
                    assert(0 <= n.states[s].default_transition < n.states.len()
                        || n.states[s].default_transition == dead());
                    lemma_closure_bounds(n, n.states[s].default_transition);
                    assert(closure_set(n, n.states[s].default_transition).contains(t));
                },
            }
        } else {
            assert(member_step(n, s, c) == set![s]);
            assert(t == s);
            assert(s == dead());
        }
    }
    assert forall|t: int| #[trigger] dstep_default(n, qs).contains(t) implies (0 <= t
        < n.states.len() || t == dead()) by {
        let s = choose|s: int| #[trigger] qs.contains(s) && member_default(n, s).contains(t);
        if 0 <= s < n.states.len() {
            lemma_closure_bounds(n, n.states[s].default_transition);
        }
    }
}

/// A successful association lookup returns one of the stored targets.
pub proof fn lemma_assoc_get_in(m: Seq<(char, int)>, c: char)
    ensures
        assoc_get(m, c) matches Some(t) ==> exists|j: int|
            0 <= j < m.len() && #[trigger] m[j] == (c, t),
    decreases m.len(),
{
    if m.len() > 0 && m[0].0 != c {
        lemma_assoc_get_in(m.skip(1), c);
        match assoc_get(m, c) {
            Some(t) => {
                let j = choose|j: int|
                    0 <= j < m.skip(1).len() && #[trigger] m.skip(1)[j] == (c, t);
                assert(m[j + 1] == (c, t));
            },
            None => {},
        }
    }
}

/// The dead subset steps to itself on every scalar.
pub proof fn lemma_dstep_dead(n: SpecNfa, c: char)
    requires
        nfa_wf(n),
    ensures
        dstep(n, dead_set(), c) == dead_set(),
{
    assert forall|t: int| #[trigger] dstep(n, dead_set(), c).contains(t) implies
        dead_set().contains(t) by {
        let s = choose|s: int| #[trigger] dead_set().contains(s) && member_step(n, s, c).contains(
            t,
        );
        assert(s == dead());
        assert(!(0 <= s < n.states.len()));
    }
    assert(dead_set().contains(dead()) && member_step(n, dead(), c).contains(dead()));
    assert(dstep(n, dead_set(), c) =~= dead_set());
}

/// One DFA state.
struct State {
    transitions: Vec<(char, usize)>,
    default_transition: usize,
}

/// The mathematical content of a DFA state.
pub struct SpecDfaState {
    pub transitions: Seq<(char, int)>,
    pub default_transition: int,
}

impl View for State {
    type V = SpecDfaState;

    closed spec fn view(&self) -> SpecDfaState {
        SpecDfaState {
            transitions: self.transitions@.map_values(|p: (char, usize)| (p.0, p.1 as int)),
            default_transition: self.default_transition as int,
        }
    }
}

/// The mathematical content of a DFA, together with the automaton it was
/// built from and the subset each state identifier stands for.
pub struct SpecDfa {
    pub states: Seq<SpecDfaState>,
    pub start: int,
    pub accept: Seq<usize>,
    pub subsets: Seq<Seq<usize>>,
    pub nfa: SpecNfa,
}

/// An eagerly built DFA: every reachable state and transition exists.
pub struct DFA {
    states: Vec<State>,
    start: usize,
    accept: Vec<usize>,
    subsets: Ghost<Seq<Seq<usize>>>,
    nfa: Ghost<SpecNfa>,
}

impl View for DFA {
    type V = SpecDfa;

    closed spec fn view(&self) -> SpecDfa {
        SpecDfa {
            states: self.states@.map_values(|s: State| s@),
            start: self.start as int,
            accept: self.accept@,
            subsets: self.subsets@,
            nfa: self.nfa@,
        }
    }
}

/// The identifier a state sends a scalar to: its labelled transition if
/// any, its default otherwise.
pub open spec fn resolve(st: SpecDfaState, c: char) -> int {
    match assoc_get(st.transitions, c) {
        Some(t) => t,
        None => st.default_transition,
    }
}

/// A target identifier is right for a subset: the dead sentinel for the
/// dead subset, otherwise the identifier assigned to exactly that subset.
pub open spec fn target_ok(subs: Seq<Seq<usize>>, t: int, bign: Set<int>) -> bool {
    if bign == dead_set() {
        t == dead()
    } else {
        0 <= t < subs.len() && iset(subs[t]) == bign
    }
}

/// The subset table is canonical: every stored subset is strictly sorted,
/// bounded, not the dead subset, distinct from the others, and the first
/// entry is the start subset.
pub open spec fn subsets_inv(nv: SpecNfa, subs: Seq<Seq<usize>>) -> bool {
    &&& forall|i: int| 0 <= i < subs.len() ==> strictly_sorted(#[trigger] subs[i])
    &&& forall|i: int| 0 <= i < subs.len() ==> elems_ok(#[trigger] subs[i], nv.states.len() as int)
    &&& forall|i: int| 0 <= i < subs.len() ==> iset(#[trigger] subs[i]) != dead_set()
    &&& forall|i: int, j: int| 0 <= i < j < subs.len() ==> subs[i] != subs[j]
    &&& subs.len() >= 1
    &&& iset(subs[0]) == start_set(nv)
}

/// The accept list holds exactly the identifiers of accepting subsets.
pub open spec fn accept_inv(nv: SpecNfa, subs: Seq<Seq<usize>>, acc: Seq<usize>) -> bool {
    &&& forall|k: int| 0 <= k < acc.len() ==> ((#[trigger] acc[k]) as int) < subs.len()
    &&& forall|i: usize|
        (i as int) < subs.len() ==> (#[trigger] acc.contains(i) <==> accepting(
            nv,
            iset(subs[i as int]),
        ))
}

/// Every labelled transition that exists is right for its subset.
pub open spec fn lazy_trans_inv(nv: SpecNfa, subs: Seq<Seq<usize>>, sts: Seq<SpecDfaState>) -> bool {
    forall|i: int, c: char|
        0 <= i < sts.len() ==> (match #[trigger] assoc_get(sts[i].transitions, c) {
            Some(t) => target_ok(subs, t, dstep(nv, iset(subs[i]), c)),
            None => true,
        })
}

/// Every scalar resolves to the right target, through a labelled
/// transition or through the default.
pub open spec fn eager_trans_inv(nv: SpecNfa, subs: Seq<Seq<usize>>, sts: Seq<SpecDfaState>) -> bool {
    forall|i: int, c: char|
        0 <= i < sts.len() ==> target_ok(subs, #[trigger] resolve(sts[i], c), dstep(
            nv,
            iset(subs[i]),
            c,
        ))
}

/// The shared part of both variants' well-formedness.
pub open spec fn dfa_inv_common(d: SpecDfa) -> bool {
    &&& nfa_wf(d.nfa)
    &&& d.states.len() == d.subsets.len()
    &&& subsets_inv(d.nfa, d.subsets)
    &&& accept_inv(d.nfa, d.subsets, d.accept)
    &&& d.start == 0
    &&& lazy_trans_inv(d.nfa, d.subsets, d.states)
}

/// Well-formedness of an eagerly built DFA.
pub open spec fn dfa_wf(d: SpecDfa) -> bool {
    &&& dfa_inv_common(d)
    &&& eager_trans_inv(d.nfa, d.subsets, d.states)
}

impl State {
    /// A fresh state with no labelled transitions and a dead default.
    pub fn new() -> (r: State)
        ensures
            r@ == (SpecDfaState { transitions: Seq::empty(), default_transition: dead() }),
    {
        let r = State { transitions: Vec::new(), default_transition: DEAD_STATE };
        proof {
            assert(r@.transitions =~= Seq::<(char, int)>::empty());
        }
        r
    }

    /// Append a labelled transition; earlier entries for the same scalar
    /// keep priority on lookup.
    pub fn add_transition(&mut self, c: char, state_num: usize)
        ensures
            final(self)@ == (SpecDfaState {
                transitions: old(self)@.transitions.push((c, state_num as int)),
                ..old(self)@
            }),
    {
        self.transitions.push((c, state_num));
        proof {
            assert(self@.transitions =~= old(self)@.transitions.push((c, state_num as int)));
        }
    }

    /// The target of the labelled transition for a scalar, if any.
    pub fn get_transition(&self, c: char) -> (r: Option<usize>)
        ensures
            match r {
                Some(t) => assoc_get(self@.transitions, c) == Some(t as int),
                None => assoc_get(self@.transitions, c) is None,
            },
    {
        let mut i: usize = 0;
        proof {
            assert(self@.transitions.skip(0) =~= self@.transitions);
        }
        while i < self.transitions.len()
            invariant
                i <= self.transitions@.len(),
                assoc_get(self@.transitions, c) == assoc_get(self@.transitions.skip(i as int), c),
            decreases self.transitions@.len() - i,
        {
            let (cc, t) = self.transitions[i];
            proof {
                assert(self@.transitions.skip(i as int)[0] == (cc, t as int));
            }
            if cc == c {
                return Some(t);
            }
            proof {
                assert(self@.transitions.skip(i as int).skip(1) =~= self@.transitions.skip(
                    i as int + 1,
                ));
            }
            i = i + 1;
        }
        proof {
            assert(self@.transitions.skip(i as int).len() == 0);
        }
        None
    }

    /// Set the default transition.
    pub fn set_default_transition(&mut self, state_num: usize)
        ensures
            final(self)@ == (SpecDfaState { default_transition: state_num as int, ..old(self)@ }),
    {
        self.default_transition = state_num;
    }
}

impl DFA {
    /// Append a fresh state; the dead sentinel needs no storage and is
    /// accepted silently.
    pub fn add_state(&mut self, state_num: usize)
        requires
            state_num == DEAD_STATE || state_num as int == old(self)@.states.len(),
        ensures
            state_num == DEAD_STATE ==> final(self)@ == old(self)@,
            state_num != DEAD_STATE ==> final(self)@ == (SpecDfa {
                states: old(self)@.states.push(
                    SpecDfaState { transitions: Seq::empty(), default_transition: dead() },
                ),
                ..old(self)@
            }),
    {
        if state_num == DEAD_STATE {
            return ;
        }
        self.states.push(State::new());
        proof {
            assert(self@.states =~= old(self)@.states.push(
                SpecDfaState { transitions: Seq::empty(), default_transition: dead() },
            ));
        }
    }

    /// Append a labelled transition to an existing state.
    pub fn add_transition(&mut self, state_num: usize, c: char, next_state: usize)
        requires
            (state_num as int) < old(self)@.states.len(),
        ensures
            final(self)@ == (SpecDfa {
                states: old(self)@.states.update(
                    state_num as int,
                    SpecDfaState {
                        transitions: old(self)@.states[state_num as int].transitions.push(
                            (c, next_state as int),
                        ),
                        ..old(self)@.states[state_num as int]
                    },
                ),
                ..old(self)@
            }),
    {
        let st = &mut self.states[state_num];
        st.add_transition(c, next_state);
        proof {
            assert(self@.states =~= old(self)@.states.update(
                state_num as int,
                SpecDfaState {
                    transitions: old(self)@.states[state_num as int].transitions.push(
                        (c, next_state as int),
                    ),
                    ..old(self)@.states[state_num as int]
                },
            ));
        }
    }

    /// Set the default transition of an existing state.
    pub fn add_default_transition(&mut self, state_num: usize, next_state: usize)
        requires
            state_num == DEAD_STATE || (state_num as int) < old(self)@.states.len(),
        ensures
            state_num == DEAD_STATE ==> final(self)@ == old(self)@,
            state_num != DEAD_STATE ==> final(self)@ == (SpecDfa {
                states: old(self)@.states.update(
                    state_num as int,
                    SpecDfaState {
                        default_transition: next_state as int,
                        ..old(self)@.states[state_num as int]
                    },
                ),
                ..old(self)@
            }),
    {
        if state_num == DEAD_STATE {
            return ;
        }
        let st = &mut self.states[state_num];
        st.set_default_transition(next_state);
        proof {
            assert(self@.states =~= old(self)@.states.update(
                state_num as int,
                SpecDfaState {
                    default_transition: next_state as int,
                    ..old(self)@.states[state_num as int]
                },
            ));
        }
    }

    /// Record, in specification land, the subset each identifier stands
    /// for.
    fn set_subsets(&mut self, subs: Ghost<Seq<Seq<usize>>>)
        ensures
            final(self)@ == (SpecDfa { subsets: subs@, ..old(self)@ }),
    {
        self.subsets = subs;
    }

    /// Record, in specification land, the automaton this DFA was built
    /// from.
    fn set_nfa_ghost(&mut self, nv: Ghost<SpecNfa>)
        ensures
            final(self)@ == (SpecDfa { nfa: nv@, ..old(self)@ }),
    {
        self.nfa = nv;
    }

    /// Set the start identifier.
    pub fn set_start(&mut self, state_num: usize)
        ensures
            final(self)@ == (SpecDfa { start: state_num as int, ..old(self)@ }),
    {
        self.start = state_num;
    }

    /// Record an identifier as accepting.
    pub fn add_accept(&mut self, state_num: usize)
        ensures
            final(self)@ == (SpecDfa { accept: old(self)@.accept.push(state_num), ..old(self)@ }),
    {
        self.accept.push(state_num);
    }

    /// The start identifier.
    pub fn get_start(&self) -> (r: usize)
        ensures
            r as int == self@.start,
    {
        self.start
    }

    /// The state with the given identifier.
    fn get_state(&self, state_num: usize) -> (r: &State)
        requires
            (state_num as int) < self@.states.len(),
        ensures
            r@ == self@.states[state_num as int],
    {
        &self.states[state_num]
    }

    /// The dense identifiers in use, with one slot counted for the dead
    /// sentinel's place in the original layout left out.
    pub fn state_num_range(&self) -> (r: core::ops::Range<usize>)
        ensures
            r.start == 0,
            r.end as int == self@.states.len(),
    {
        0..self.states.len()
    }
}

/// The common interface of the two DFA variants.
///
/// Each implementation exposes, in specification land, the automaton it
/// was built from (`nfa_view`), which identifiers are in use (`assigned`),
/// and the subset of NFA states each identifier stands for (`subset_of`).
/// The methods are specified against the subset automaton of that NFA, so
/// everything the matcher proves holds of the subset-automaton language.
pub trait DFAExt: Sized {
    /// The variant's internal invariant.
    spec fn wf(&self) -> bool;

    /// The automaton this DFA runs the subset construction over.
    spec fn nfa_view(&self) -> SpecNfa;

    /// Whether an identifier is in use (the dead sentinel always is).
    spec fn assigned(&self, q: usize) -> bool;

    /// The subset of NFA states an identifier stands for.
    spec fn subset_of(&self, q: usize) -> Set<int>;

    /// A well-formed DFA was built over a well-formed automaton.
    proof fn lemma_wf_nfa(&self)
        requires
            self.wf(),
        ensures
            nfa_wf(self.nfa_view()),
    ;

    /// The dead sentinel stands for the dead subset.
    proof fn lemma_dead_subset(&self)
        ensures
            self.subset_of(DEAD_STATE) == dead_set(),
    ;

    /// Build the DFA for a well-formed NFA.
    fn new(nfa: NFA) -> (r: Self)
        requires
            nfa_wf(nfa@),
        ensures
            r.wf(),
            r.nfa_view() == nfa@,
    ;

    /// Whether a state is accepting.
    fn is_accept(&self, state: usize) -> (r: bool)
        requires
            self.wf(),
            self.assigned(state),
        ensures
            r == accepting(self.nfa_view(), self.subset_of(state)),
    ;

    /// Whether a state is the dead sentinel.
    fn is_dead(&self, state: usize) -> (r: bool)
        ensures
            r == (state == DEAD_STATE),
    ;

    /// Step the automaton: the state reached from `current_state` on
    /// scalar `c`.  The lazy variant may allocate the target on the way,
    /// which is why the receiver is mutable; the automaton itself, its
    /// assigned identifiers and their subsets never change.
    fn transition(&mut self, c: char, current_state: usize) -> (r: usize)
        requires
            old(self).wf(),
            old(self).assigned(current_state),
        ensures
            final(self).wf(),
            final(self).nfa_view() == old(self).nfa_view(),
            forall|q2: usize| old(self).assigned(q2) ==> final(self).assigned(q2)
                && final(self).subset_of(q2) == old(self).subset_of(q2),
            final(self).assigned(r),
            final(self).subset_of(r) == dstep(
                old(self).nfa_view(),
                old(self).subset_of(current_state),
                c,
            ),
    ;

    /// The start state.
    fn get_start(&self) -> (q: usize)
        requires
            self.wf(),
        ensures
            self.assigned(q),
            self.subset_of(q) == start_set(self.nfa_view()),
    ;
}

/// The members of a subset vector up to position `upto` contribute these
/// successor states on scalar `c`.
pub open spec fn dstep_partial(n: SpecNfa, q: Seq<usize>, c: char, upto: int) -> Set<int> {
    Set::new(
        |t: int|
            exists|k: int|
                0 <= k < upto && member_step(n, (#[trigger] q[k]) as int, c).contains(t),
    )
}

/// Once every member has contributed, the partial step is the full step.
proof fn lemma_dstep_partial_full(n: SpecNfa, q: Seq<usize>, c: char)
    ensures
        dstep_partial(n, q, c, q.len() as int) == dstep(n, iset(q), c),
{
    lemma_iset(q);
    assert forall|t: int| dstep_partial(n, q, c, q.len() as int).contains(t) implies dstep(
        n,
        iset(q),
        c,
    ).contains(t) by {
        let k = choose|k: int|
            0 <= k < q.len() && member_step(n, (#[trigger] q[k]) as int, c).contains(t);
        assert(iset(q).contains(q[k] as int)) by {
            assert(q.contains(q[k]));
        }
        assert(iset(q).contains(q[k] as int) && member_step(n, q[k] as int, c).contains(t));
    }
    assert forall|t: int| dstep(n, iset(q), c).contains(t) implies dstep_partial(
        n,
        q,
        c,
        q.len() as int,
    ).contains(t) by {
        let s = choose|s: int| #[trigger] iset(q).contains(s) && member_step(n, s, c).contains(t);
        assert(q.contains(s as usize));
        let k = choose|k: int| 0 <= k < q.len() && q[k] == s as usize;
        assert((q[k] as int) == s);
    }
    assert(dstep_partial(n, q, c, q.len() as int) =~= dstep(n, iset(q), c));
}

/// A bounded subset vector has a well-bounded element set.
proof fn lemma_subset_set_ok(nv: SpecNfa, q: Seq<usize>)
    requires
        elems_ok(q, nv.states.len() as int),
    ensures
        set_ok(nv, iset(q)),
{
    lemma_iset(q);
    assert forall|t: int| #[trigger] iset(q).contains(t) implies (0 <= t < nv.states.len() || t
        == dead()) by {
        assert(q.contains(t as usize));
        let k = choose|k: int| 0 <= k < q.len() && q[k] == t as usize;
    }
}

/// Compute the canonical successor subset of a subset on one scalar.
fn next_subset_vec(nfa: &NFA, subset: &Vec<usize>, c: char) -> (r: Vec<usize>)
    requires
        nfa_wf(nfa@),
        elems_ok(subset@, nfa@.states.len() as int),
    ensures
        strictly_sorted(r@),
        iset(r@) == dstep(nfa@, iset(subset@), c),
        elems_ok(r@, nfa@.states.len() as int),
{
    let ghost nv = nfa@;
    let mut acc: Vec<usize> = Vec::new();
    let mut i: usize = 0;
    proof {
        assert(iset(acc@) =~= dstep_partial(nv, subset@, c, 0)) by {
            assert(acc@.map_values(|x: usize| x as int) =~= Seq::<int>::empty());
        }
    }
    while i < subset.len()
        invariant
            nv == nfa@,
            nfa_wf(nv),
            elems_ok(subset@, nv.states.len() as int),
            i <= subset@.len(),
            iset(acc@) == dstep_partial(nv, subset@, c, i as int),
        decreases subset@.len() - i,
    {
        let s = subset[i];
        let ghost pre = acc@;
        let ghost mstep: Set<int> = member_step(nv, s as int, c);
        match nfa.get_state(s) {
            None => {
                acc.push(s);
                proof {
                    crate::canon::lemma_iset_concat(pre, seq![s]);
                    assert(acc@ =~= pre + seq![s]);
                    lemma_iset(seq![s]);
                    assert(seq![s].contains(s)) by {
                        assert(seq![s][0] == s);
                    }
                    assert forall|t: int| iset(seq![s]).contains(t) implies t == s as int by {
                        assert(seq![s].contains(t as usize));
                    }
                    assert(iset(seq![s]) =~= set![s as int]);
                    assert(mstep == set![s as int]);
                }
            },
            Some(st) => {
                let target = match st.get_transition(c) {
                    Some(t) => t,
                    None => st.default_transition,
                };
                let cl = nfa.epsilon_closure(target);
                push_all(&mut acc, &cl);
                proof {
                    crate::canon::lemma_iset_concat(pre, cl@);
                    assert(mstep == closure_set(nv, target as int));
                }
            },
        }
        proof {
            assert(iset(acc@) == iset(pre).union(mstep));
            assert forall|t: int| iset(acc@).contains(t) <==> dstep_partial(
                nv,
                subset@,
                c,
                i as int + 1,
            ).contains(t) by {
                if iset(acc@).contains(t) {
                    if iset(pre).contains(t) {
                        let k = choose|k: int|
                            0 <= k < i && member_step(
                                nv,
                                (#[trigger] subset@[k]) as int,
                                c,
                            ).contains(t);
                        assert(0 <= k < i as int + 1 && member_step(
                            nv,
                            subset@[k] as int,
                            c,
                        ).contains(t));
                    } else {
                        assert(mstep.contains(t));
                        assert(subset@[i as int] == s);
                        assert(member_step(nv, subset@[i as int] as int, c).contains(t));
                    }
                }
                if dstep_partial(nv, subset@, c, i as int + 1).contains(t) {
                    let k = choose|k: int|
                        0 <= k < i as int + 1 && member_step(
                            nv,
                            (#[trigger] subset@[k]) as int,
                            c,
                        ).contains(t);
                    if k < i {
                        assert(dstep_partial(nv, subset@, c, i as int).contains(t));
                    } else {
                        assert(subset@[k] == s);
                        assert(mstep.contains(t));
                    }
                }
            }
            assert(iset(acc@) =~= dstep_partial(nv, subset@, c, i as int + 1));
        }
        i = i + 1;
    }
    proof {
        lemma_dstep_partial_full(nv, subset@, c);
    }
    let r = sort_dedup(&acc);
    proof {
        lemma_subset_set_ok(nv, subset@);
        lemma_dstep_ok(nv, iset(subset@), c);
        lemma_iset(r@);
        assert forall|k: int| #![trigger r@[k]] 0 <= k < r@.len() implies (((r@[k] as int)
            < nv.states.len() as int) || (r@[k] == usize::MAX)) by {
            assert(r@.contains(r@[k]));
            assert(iset(r@).contains(r@[k] as int));
            assert((0 <= (r@[k] as int) && ((r@[k] as int) < nv.states.len())) || ((
            r@[k] as int) == dead()));
        }
    }
    r
}

/// The members of a subset vector up to position `upto` contribute these
/// default successors.
pub open spec fn ddefault_partial(n: SpecNfa, q: Seq<usize>, upto: int) -> Set<int> {
    Set::new(
        |t: int|
            exists|k: int| 0 <= k < upto && member_default(n, (#[trigger] q[k]) as int).contains(t),
    )
}

proof fn lemma_ddefault_partial_full(n: SpecNfa, q: Seq<usize>)
    ensures
        ddefault_partial(n, q, q.len() as int) == dstep_default(n, iset(q)),
{
    lemma_iset(q);
    assert forall|t: int| ddefault_partial(n, q, q.len() as int).contains(t) implies dstep_default(
        n,
        iset(q),
    ).contains(t) by {
        let k = choose|k: int|
            0 <= k < q.len() && member_default(n, (#[trigger] q[k]) as int).contains(t);
        assert(iset(q).contains(q[k] as int)) by {
            assert(q.contains(q[k]));
        }
        assert(iset(q).contains(q[k] as int) && member_default(n, q[k] as int).contains(t));
    }
    assert forall|t: int| dstep_default(n, iset(q)).contains(t) implies ddefault_partial(
        n,
        q,
        q.len() as int,
    ).contains(t) by {
        let s = choose|s: int| #[trigger] iset(q).contains(s) && member_default(n, s).contains(t);
        assert(q.contains(s as usize));
        let k = choose|k: int| 0 <= k < q.len() && q[k] == s as usize;
        assert((q[k] as int) == s);
    }
    assert(ddefault_partial(n, q, q.len() as int) =~= dstep_default(n, iset(q)));
}

/// Compute the canonical default-successor subset of a subset.
fn default_subset_vec(nfa: &NFA, subset: &Vec<usize>) -> (r: Vec<usize>)
    requires
        nfa_wf(nfa@),
        elems_ok(subset@, nfa@.states.len() as int),
    ensures
        strictly_sorted(r@),
        iset(r@) == dstep_default(nfa@, iset(subset@)),
        elems_ok(r@, nfa@.states.len() as int),
{
    let ghost nv = nfa@;
    let mut acc: Vec<usize> = Vec::new();
    let mut i: usize = 0;
    proof {
        assert(iset(acc@) =~= ddefault_partial(nv, subset@, 0)) by {
            assert(acc@.map_values(|x: usize| x as int) =~= Seq::<int>::empty());
        }
    }
    while i < subset.len()
        invariant
            nv == nfa@,
            nfa_wf(nv),
            elems_ok(subset@, nv.states.len() as int),
            i <= subset@.len(),
            iset(acc@) == ddefault_partial(nv, subset@, i as int),
        decreases subset@.len() - i,
    {
        let s = subset[i];
        let ghost pre = acc@;
        let ghost mstep: Set<int> = member_default(nv, s as int);
        match nfa.get_state(s) {
            None => {
                acc.push(s);
                proof {
                    crate::canon::lemma_iset_concat(pre, seq![s]);
                    assert(acc@ =~= pre + seq![s]);
                    lemma_iset(seq![s]);
                    assert(seq![s].contains(s)) by {
                        assert(seq![s][0] == s);
                    }
                    assert forall|t: int| iset(seq![s]).contains(t) implies t == s as int by {
                        assert(seq![s].contains(t as usize));
                    }
                    assert(iset(seq![s]) =~= set![s as int]);
                    assert(mstep == set![s as int]);
                }
            },
            Some(st) => {
                let cl = nfa.epsilon_closure(st.default_transition);
                push_all(&mut acc, &cl);
                proof {
                    crate::canon::lemma_iset_concat(pre, cl@);
                    assert(mstep == closure_set(nv, st@.default_transition));
                }
            },
        }
        proof {
            assert(iset(acc@) == iset(pre).union(mstep));
            assert forall|t: int| iset(acc@).contains(t) <==> ddefault_partial(
                nv,
                subset@,
                i as int + 1,
            ).contains(t) by {
                if iset(acc@).contains(t) {
                    if iset(pre).contains(t) {
                        let k = choose|k: int|
                            0 <= k < i && member_default(nv, (#[trigger] subset@[k]) as int).contains(
                                t,
                            );
                        assert(0 <= k < i as int + 1 && member_default(
                            nv,
                            subset@[k] as int,
                        ).contains(t));
                    } else {
                        assert(mstep.contains(t));
                        assert(subset@[i as int] == s);
                        assert(member_default(nv, subset@[i as int] as int).contains(t));
                    }
                }
                if ddefault_partial(nv, subset@, i as int + 1).contains(t) {
                    let k = choose|k: int|
                        0 <= k < i as int + 1 && member_default(
                            nv,
                            (#[trigger] subset@[k]) as int,
                        ).contains(t);
                    if k < i {
                        assert(ddefault_partial(nv, subset@, i as int).contains(t));
                    } else {
                        assert(subset@[k] == s);
                        assert(mstep.contains(t));
                    }
                }
            }
            assert(iset(acc@) =~= ddefault_partial(nv, subset@, i as int + 1));
        }
        i = i + 1;
    }
    proof {
        lemma_ddefault_partial_full(nv, subset@);
    }
    let r = sort_dedup(&acc);
    proof {
        lemma_subset_set_ok(nv, subset@);
        lemma_dstep_ok(nv, iset(subset@), ' ');
        lemma_iset(r@);
        assert forall|k: int| #![trigger r@[k]] 0 <= k < r@.len() implies (((r@[k] as int)
            < nv.states.len() as int) || (r@[k] == usize::MAX)) by {
            assert(r@.contains(r@[k]));
            assert(iset(r@).contains(r@[k] as int));
            assert((0 <= (r@[k] as int) && ((r@[k] as int) < nv.states.len())) || ((
            r@[k] as int) == dead()));
        }
    }
    r
}

/// An association lookup succeeds exactly when the scalar occurs as a key.
pub proof fn lemma_assoc_some_iff(m: Seq<(char, int)>, c: char)
    ensures
        (assoc_get(m, c) is Some) <==> exists|j: int| 0 <= j < m.len() && (#[trigger] m[j]).0 == c,
    decreases m.len(),
{
    if m.len() > 0 {
        if m[0].0 == c {
        } else {
            lemma_assoc_some_iff(m.skip(1), c);
            if assoc_get(m, c) is Some {
                let j = choose|j: int|
                    0 <= j < m.skip(1).len() && (#[trigger] m.skip(1)[j]).0 == c;
                assert(m[j + 1].0 == c);
            }
            if exists|j: int| 0 <= j < m.len() && (#[trigger] m[j]).0 == c {
                let j = choose|j: int| 0 <= j < m.len() && (#[trigger] m[j]).0 == c;
                assert(m.skip(1)[j - 1].0 == c);
            }
        }
    }
}

/// Appending one association entry changes only the lookup of a scalar
/// that had no entry before.
pub proof fn lemma_assoc_push(m: Seq<(char, int)>, c: char, t: int, c2: char)
    ensures
        assoc_get(m.push((c, t)), c2) == (match assoc_get(m, c2) {
            Some(x) => Some(x),
            None => if c2 == c {
                Some(t)
            } else {
                None
            },
        }),
    decreases m.len(),
{
    if m.len() == 0 {
        assert(m.push((c, t))[0] == (c, t));
        assert(m.push((c, t)).skip(1) =~= Seq::<(char, int)>::empty());
        assert(assoc_get(m, c2) is None);
        if c2 == c {
            assert(assoc_get(m.push((c, t)), c2) == Some(t));
        } else {
            assert(assoc_get(m.push((c, t)), c2) == assoc_get(
                Seq::<(char, int)>::empty(),
                c2,
            ));
        }
    } else {
        assert(m.push((c, t))[0] == m[0]);
        assert(m.push((c, t)).len() == m.len() + 1);
        if m[0].0 == c2 {
            assert(assoc_get(m.push((c, t)), c2) == Some(m[0].1));
            assert(assoc_get(m, c2) == Some(m[0].1));
        } else {
            lemma_assoc_push(m.skip(1), c, t, c2);
            assert(m.push((c, t)).skip(1) =~= m.skip(1).push((c, t)));
            assert(assoc_get(m.push((c, t)), c2) == assoc_get(m.skip(1).push((c, t)), c2));
            assert(assoc_get(m, c2) == assoc_get(m.skip(1), c2));
        }
    }
}

/// Whether some member of the subset has a labelled transition on `c`.
pub open spec fn subset_has_label(n: SpecNfa, q: Seq<usize>, c: char) -> bool {
    exists|k: int|
        0 <= k < q.len() && ((#[trigger] q[k]) as int) < n.states.len() && (assoc_get(
            n.states[q[k] as int].transitions,
            c,
        ) is Some)
}

/// On a scalar that no member distinguishes, the subset step is the
/// default step.
pub proof fn lemma_dstep_no_label(n: SpecNfa, q: Seq<usize>, c: char)
    requires
        !subset_has_label(n, q, c),
    ensures
        dstep(n, iset(q), c) == dstep_default(n, iset(q)),
{
    lemma_iset(q);
    assert forall|s: int| #[trigger] iset(q).contains(s) implies member_step(n, s, c)
        == member_default(n, s) by {
        assert(q.contains(s as usize));
        let k = choose|k: int| 0 <= k < q.len() && q[k] == s as usize;
        if 0 <= s < n.states.len() {
            assert(((q[k] as int)) < n.states.len());
            assert(!(assoc_get(n.states[q[k] as int].transitions, c) is Some));
        }
    }
    assert forall|t: int| dstep(n, iset(q), c).contains(t) <==> dstep_default(n, iset(q)).contains(
        t,
    ) by {
        if dstep(n, iset(q), c).contains(t) {
            let s = choose|s: int| #[trigger] iset(q).contains(s) && member_step(n, s, c).contains(
                t,
            );
            assert(member_default(n, s).contains(t));
        }
        if dstep_default(n, iset(q)).contains(t) {
            let s = choose|s: int| #[trigger] iset(q).contains(s) && member_default(n, s).contains(
                t,
            );
            assert(member_step(n, s, c).contains(t));
        }
    }
    assert(dstep(n, iset(q), c) =~= dstep_default(n, iset(q)));
}

/// Like `subset_has_label`, over only the first `upto` members.
spec fn has_label_upto(n: SpecNfa, q: Seq<usize>, c: char, upto: int) -> bool {
    exists|k: int|
        0 <= k < upto && ((#[trigger] q[k]) as int) < n.states.len() && (assoc_get(
            n.states[q[k] as int].transitions,
            c,
        ) is Some)
}

/// Collect every scalar some member of the subset has a labelled
/// transition for, without duplicates.
fn collect_chars(nfa: &NFA, subset: &Vec<usize>) -> (r: Vec<char>)
    requires
        nfa_wf(nfa@),
    ensures
        r@.no_duplicates(),
        forall|c: char| #[trigger] r@.contains(c) <==> subset_has_label(nfa@, subset@, c),
{
    let ghost nv = nfa@;
    let mut r: Vec<char> = Vec::new();
    let mut k: usize = 0;
    while k < subset.len()
        invariant
            nv == nfa@,
            nfa_wf(nv),
            k <= subset@.len(),
            r@.no_duplicates(),
            forall|c: char| #[trigger] r@.contains(c) <==> has_label_upto(nv, subset@, c, k as int),
        decreases subset@.len() - k,
    {
        let s = subset[k];
        match nfa.get_state(s) {
            None => {
                proof {
                    assert forall|c: char| #[trigger] r@.contains(c) <==> has_label_upto(
                        nv,
                        subset@,
                        c,
                        k as int + 1,
                    ) by {
                        if has_label_upto(nv, subset@, c, k as int + 1) {
                            let kk = choose|kk: int|
                                0 <= kk < k as int + 1 && ((#[trigger] subset@[kk]) as int)
                                    < nv.states.len() && (assoc_get(
                                    nv.states[subset@[kk] as int].transitions,
                                    c,
                                ) is Some);
                            assert(kk < k as int);
                        }
                    }
                }
            },
            Some(st) => {
                let ghost xs = st@;
                let mut j: usize = 0;
                while j < st.transitions.len()
                    invariant
                        nv == nfa@,
                        nfa_wf(nv),
                        st@ == xs,
                        (s as int) < nv.states.len(),
                        xs == nv.states[s as int],
                        s == subset@[k as int],
                        k < subset@.len(),
                        j <= st.transitions@.len(),
                        r@.no_duplicates(),
                        forall|c: char| #[trigger] r@.contains(c) <==> (has_label_upto(
                            nv,
                            subset@,
                            c,
                            k as int,
                        ) || exists|jj: int|
                            0 <= jj < j && (#[trigger] xs.transitions[jj]).0 == c),
                    decreases st.transitions@.len() - j,
                {
                    let (cc, _t) = st.transitions[j];
                    proof {
                        assert(xs.transitions[j as int].0 == cc);
                    }
                    let ghost pre = r@;
                    if !crate::canon::contains_char(&r, cc) {
                        r.push(cc);
                        proof {
                            assert forall|c: char| #[trigger] r@.contains(c) <==> (has_label_upto(
                                nv,
                                subset@,
                                c,
                                k as int,
                            ) || exists|jj: int|
                                0 <= jj < j as int + 1 && (#[trigger] xs.transitions[jj]).0
                                    == c) by {
                                if r@.contains(c) {
                                    let ii = choose|ii: int| 0 <= ii < r@.len() && r@[ii] == c;
                                    if ii < r@.len() - 1 {
                                        assert(pre[ii] == c);
                                        assert(pre.contains(c));
                                    } else {
                                        assert(c == cc);
                                        assert(xs.transitions[j as int].0 == c);
                                    }
                                }
                                if has_label_upto(nv, subset@, c, k as int) {
                                    assert(pre.contains(c));
                                    let ii = choose|ii: int| 0 <= ii < pre.len() && pre[ii] == c;
                                    assert(r@[ii] == c);
                                    assert(r@.contains(c));
                                }
                                if exists|jj: int|
                                    0 <= jj < j as int + 1 && (#[trigger] xs.transitions[jj]).0
                                        == c {
                                    let jj = choose|jj: int|
                                        0 <= jj < j as int + 1 && (#[trigger] xs.transitions[jj]).0
                                            == c;
                                    if jj < j as int {
                                        assert(pre.contains(c));
                                        let ii = choose|ii: int|
                                            0 <= ii < pre.len() && pre[ii] == c;
                                        assert(r@[ii] == c);
                                        assert(r@.contains(c));
                                    } else {
                                        assert(c == cc);
                                        assert(r@.last() == c);
                                        assert(r@.contains(c));
                                    }
                                }
                            }
                        }
                    } else {
                        proof {
                            assert forall|c: char| #[trigger] r@.contains(c) <==> (has_label_upto(
                                nv,
                                subset@,
                                c,
                                k as int,
                            ) || exists|jj: int|
                                0 <= jj < j as int + 1 && (#[trigger] xs.transitions[jj]).0
                                    == c) by {
                                if !r@.contains(c) && exists|jj: int|
                                    0 <= jj < j as int + 1 && (#[trigger] xs.transitions[jj]).0
                                        == c {
                                    let jj = choose|jj: int|
                                        0 <= jj < j as int + 1 && (#[trigger] xs.transitions[jj]).0
                                            == c;
                                    assert(jj < j as int || c == cc);
                                }
                            }
                        }
                    }
                    j = j + 1;
                }
                proof {
                    assert forall|c: char| #[trigger] r@.contains(c) <==> has_label_upto(
                        nv,
                        subset@,
                        c,
                        k as int + 1,
                    ) by {
                        lemma_assoc_some_iff(xs.transitions, c);
                        if has_label_upto(nv, subset@, c, k as int + 1) && !has_label_upto(
                            nv,
                            subset@,
                            c,
                            k as int,
                        ) {
                            let kk = choose|kk: int|
                                0 <= kk < k as int + 1 && ((#[trigger] subset@[kk]) as int)
                                    < nv.states.len() && (assoc_get(
                                    nv.states[subset@[kk] as int].transitions,
                                    c,
                                ) is Some);
                            assert(kk == k as int);
                        }
                        if r@.contains(c) && !has_label_upto(nv, subset@, c, k as int) {
                            assert(subset@[k as int] == s);
                        }
                    }
                }
            },
        }
        k = k + 1;
    }
    proof {
        assert forall|c: char| #[trigger] r@.contains(c) <==> subset_has_label(
            nv,
            subset@,
            c,
        ) by {}
    }
    r
}

/// A state not yet processed: no labelled transitions, dead default.
pub open spec fn pristine(st: SpecDfaState) -> bool {
    st.transitions.len() == 0 && st.default_transition == dead()
}

/// A fully processed state: every scalar resolves to the right target for
/// the subset `q` the state stands for.
pub open spec fn state_done(nv: SpecNfa, subs: Seq<Seq<usize>>, st: SpecDfaState, q: Seq<usize>) -> bool {
    forall|c: char| target_ok(subs, #[trigger] resolve(st, c), dstep(nv, iset(q), c))
}

/// The invariant of the eager construction, with the state `cur` (the one
/// being processed) exempt from the processed/pending split.
pub open spec fn build_inv_except(d: SpecDfa, sx: Seq<Vec<usize>>, wl: Seq<usize>, cur: int) -> bool {
    &&& nfa_wf(d.nfa)
    &&& d.subsets == sx.map_values(|v: Vec<usize>| v@)
    &&& d.states.len() == d.subsets.len()
    &&& subsets_inv(d.nfa, d.subsets)
    &&& d.start == 0
    &&& d.accept.len() == 0
    &&& wl.no_duplicates()
    &&& forall|k: int| 0 <= k < wl.len() ==> ((#[trigger] wl[k]) as int) < d.states.len()
    &&& forall|id: usize|
        (id as int) < d.states.len() && wl.contains(id) ==> pristine(
            #[trigger] d.states[id as int],
        )
    &&& forall|id: usize|
        (id as int) < d.states.len() && !wl.contains(id) && id as int != cur ==> state_done(
            d.nfa,
            d.subsets,
            #[trigger] d.states[id as int],
            d.subsets[id as int],
        )
}

/// The invariant of the eager construction between state processings.
pub open spec fn build_inv(d: SpecDfa, sx: Seq<Vec<usize>>, wl: Seq<usize>) -> bool {
    build_inv_except(d, sx, wl, -1)
}

/// A target stays right when the subset table grows at the end.
proof fn lemma_target_ok_grow(subs1: Seq<Seq<usize>>, subs2: Seq<Seq<usize>>, t: int, bign: Set<
    int,
>)
    requires
        target_ok(subs1, t, bign),
        subs1.len() <= subs2.len(),
        forall|i: int| 0 <= i < subs1.len() ==> subs2[i] == subs1[i],
    ensures
        target_ok(subs2, t, bign),
{
}

/// Find the identifier assigned to a canonical subset, assigning a fresh
/// one (and queueing it for processing) if it is new.  The dead subset
/// maps to the dead sentinel.
fn find_or_insert(
    d: &mut DFA,
    sx: &mut Vec<Vec<usize>>,
    wl: &mut Vec<usize>,
    next: Vec<usize>,
    cur: Ghost<int>,
) -> (r: usize)
    requires
        build_inv_except(old(d)@, old(sx)@, old(wl)@, cur@),
        strictly_sorted(next@),
        elems_ok(next@, old(d)@.nfa.states.len() as int),
    ensures
        build_inv_except(final(d)@, final(sx)@, final(wl)@, cur@),
        final(d)@.nfa == old(d)@.nfa,
        final(d)@.accept == old(d)@.accept,
        final(d)@.start == old(d)@.start,
        old(sx)@.len() <= final(sx)@.len(),
        forall|i: int| 0 <= i < old(sx)@.len() ==> final(sx)@[i] == old(sx)@[i],
        forall|i: int| 0 <= i < old(d)@.states.len() ==> final(d)@.states[i] == old(d)@.states[i],
        old(d)@.states.len() <= final(d)@.states.len(),
        forall|k: int| 0 <= k < old(wl)@.len() ==> final(wl)@[k] == old(wl)@[k],
        old(wl)@.len() <= final(wl)@.len(),
        forall|k: int|
            old(wl)@.len() <= k < final(wl)@.len() ==> ((#[trigger] final(wl)@[k]) as int)
                >= old(d)@.states.len(),
        final(sx)@.len() == old(sx)@.len() ==> final(wl)@ == old(wl)@ && final(d)@.states
            == old(d)@.states,
        target_ok(final(d)@.subsets, r as int, iset(next@)),
{
    let ghost nv = d@.nfa;
    if next.len() == 1 && next[0] == DEAD_STATE {
        proof {
            lemma_iset(next@);
            assert(next@.contains(DEAD_STATE));
            assert(iset(next@).contains(dead()));
            assert forall|t: int| iset(next@).contains(t) implies t == dead() by {
                assert(next@.contains(t as usize));
                let k = choose|k: int| 0 <= k < next@.len() && next@[k] == t as usize;
                assert(k == 0);
            }
            assert(iset(next@) =~= dead_set());
        }
        return DEAD_STATE;
    }
    proof {
        // A canonical subset other than the vector holding only the
        // sentinel never has the dead subset as its element set.
        if iset(next@) == dead_set() {
            lemma_iset(next@);
            assert(iset(next@).contains(dead()));
            assert(next@.contains(DEAD_STATE));
            let k = choose|k: int| 0 <= k < next@.len() && next@[k] == DEAD_STATE;
            if next@.len() > 1 {
                let other = if k == 0 {
                    1
                } else {
                    0
                };
                assert(next@.contains(next@[other]));
                assert(iset(next@).contains(next@[other] as int));
                assert(next@[other] as int == dead());
                assert(next@[other] == DEAD_STATE);
                assert(false);
            }
            assert(next@.len() == 1 && next@[0] == DEAD_STATE);
            assert(false);
        }
    }
    let mut id: usize = 0;
    while id < sx.len()
        invariant
            id <= sx@.len(),
            forall|i: int| 0 <= i < id ==> (#[trigger] sx@[i])@ != next@,
            build_inv_except(d@, sx@, wl@, cur@),
            iset(next@) != dead_set(),
        decreases sx@.len() - id,
    {
        if vec_eq(&sx[id], &next) {
            proof {
                assert(d@.subsets == sx@.map_values(|v: Vec<usize>| v@));
                assert(d@.subsets[id as int] == sx@[id as int]@);
                assert(d@.subsets[id as int] == next@);
                assert(target_ok(d@.subsets, id as int, iset(next@)));
            }
            return id;
        }
        id = id + 1;
    }
    let newid = sx.len();
    let ghost pre_d = d@;
    let ghost pre_sx = sx@;
    let ghost pre_wl = wl@;
    d.add_state(newid);
    d.set_subsets(Ghost(d@.subsets.push(next@)));
    sx.push(next);
    wl.push(newid);
    proof {
        assert(sx.len() == sx@.len());
        assert(sx@.len() <= usize::MAX);
        assert(pre_sx.len() < usize::MAX);
        assert(newid != DEAD_STATE);
        assert(d@.states == pre_d.states.push(
            SpecDfaState { transitions: Seq::empty(), default_transition: dead() },
        ));
        assert(d@.subsets == pre_d.subsets.push(next@));
        assert(d@.states.len() == pre_d.states.len() + 1);
        assert(d@.nfa == pre_d.nfa && d@.start == pre_d.start && d@.accept == pre_d.accept);
        assert(sx@ =~= pre_sx.push(sx@[pre_sx.len() as int]));
        assert(d@.subsets =~= sx@.map_values(|v: Vec<usize>| v@)) by {
            assert(d@.subsets.len() == sx@.len());
            assert forall|i: int| 0 <= i < d@.subsets.len() implies d@.subsets[i] == sx@[i]@ by {
                if i < pre_sx.len() {
                    assert(sx@[i] == pre_sx[i]);
                }
            }
        }
        let subs2 = d@.subsets;
        let subs1 = pre_d.subsets;
        assert forall|i: int| 0 <= i < subs2.len() implies strictly_sorted(#[trigger] subs2[i])
            && elems_ok(subs2[i], nv.states.len() as int) && iset(subs2[i]) != dead_set() by {
            if i < subs1.len() {
                assert(subs2[i] == subs1[i]);
            } else {
                assert(subs2[i] == next@);
            }
        }
        assert forall|i: int, j: int| 0 <= i < j < subs2.len() implies subs2[i] != subs2[j] by {
            if j < subs1.len() {
                assert(subs2[i] == subs1[i] && subs2[j] == subs1[j]);
            } else {
                assert(subs2[j] == next@);
                if i < subs1.len() {
                    assert(subs2[i] == subs1[i]);
                    assert(sx@[i]@ != next@);
                }
            }
        }
        assert(iset(subs2[0]) == start_set(nv)) by {
            assert(subs2[0] == subs1[0]);
        }
        // Worklist bookkeeping.
        assert(wl@ =~= pre_wl.push(newid));
        assert forall|k: int, k2: int|
            0 <= k < wl@.len() && 0 <= k2 < wl@.len() && k != k2 implies wl@[k] != wl@[k2] by {
            if k < pre_wl.len() && k2 < pre_wl.len() {
            } else if k < pre_wl.len() {
                assert(wl@[k2] == newid);
                assert((wl@[k] as int) < pre_d.states.len());
            } else if k2 < pre_wl.len() {
                assert(wl@[k] == newid);
                assert((wl@[k2] as int) < pre_d.states.len());
            }
        }
        assert(wl@.no_duplicates());
        // The pending/processed split.
        assert forall|id2: usize|
            (id2 as int) < d@.states.len() && wl@.contains(id2) implies pristine(
            #[trigger] d@.states[id2 as int]) by {
            if (id2 as int) < pre_d.states.len() {
                let k = choose|k: int| 0 <= k < wl@.len() && wl@[k] == id2;
                if k < pre_wl.len() {
                    assert(pre_wl.contains(id2));
                    assert(d@.states[id2 as int] == pre_d.states[id2 as int]);
                } else {
                    assert(wl@[k] == newid);
                    assert(id2 == newid);
                    assert(false);
                }
            } else {
                assert(id2 == newid);
                assert(d@.states[id2 as int] == SpecDfaState {
                    transitions: Seq::empty(),
                    default_transition: dead(),
                });
            }
        }
        assert forall|id2: usize|
            (id2 as int) < d@.states.len() && !wl@.contains(id2) && id2 as int != cur@ implies
            state_done(nv, d@.subsets, #[trigger] d@.states[id2 as int], d@.subsets[id2 as int])
        by {
            if (id2 as int) < pre_d.states.len() {
                assert(!pre_wl.contains(id2)) by {
                    if pre_wl.contains(id2) {
                        let k = choose|k: int| 0 <= k < pre_wl.len() && pre_wl[k] == id2;
                        assert(wl@[k] == id2);
                    }
                }
                assert(state_done(nv, subs1, pre_d.states[id2 as int], subs1[id2 as int]));
                assert(d@.states[id2 as int] == pre_d.states[id2 as int]);
                assert(d@.subsets[id2 as int] == subs1[id2 as int]);
                assert forall|c: char| target_ok(
                    subs2,
                    #[trigger] resolve(d@.states[id2 as int], c),
                    dstep(nv, iset(d@.subsets[id2 as int]), c),
                ) by {
                    lemma_target_ok_grow(
                        subs1,
                        subs2,
                        resolve(d@.states[id2 as int], c),
                        dstep(nv, iset(subs1[id2 as int]), c),
                    );
                }
            } else {
                assert(id2 == newid);
                assert(wl@[wl@.len() - 1] == newid);
                assert(wl@.contains(id2));
                assert(false);
            }
        }
        assert(target_ok(d@.subsets, newid as int, iset(next@))) by {
            assert(d@.subsets[newid as int] == next@);
        }
        assert forall|k: int| 0 <= k < wl@.len() implies ((#[trigger] wl@[k]) as int)
            < d@.states.len() by {
            if k < pre_wl.len() {
                assert(wl@[k] == pre_wl[k]);
            } else {
                assert(wl@[k] == newid);
            }
        }
        assert(subsets_inv(nv, d@.subsets));
        assert(build_inv_except(d@, sx@, wl@, cur@));
    }
    newid
}

impl DFAExt for DFA {
    open spec fn wf(&self) -> bool {
        dfa_wf(self@)
    }

    open spec fn nfa_view(&self) -> SpecNfa {
        self@.nfa
    }

    open spec fn assigned(&self, q: usize) -> bool {
        q == DEAD_STATE || (q as int) < self@.states.len()
    }

    open spec fn subset_of(&self, q: usize) -> Set<int> {
        if q == DEAD_STATE {
            dead_set()
        } else {
            iset(self@.subsets[q as int])
        }
    }

    proof fn lemma_wf_nfa(&self) {
    }

    proof fn lemma_dead_subset(&self) {
    }

    /// Build the whole DFA at once: subset construction driven by a
    /// worklist of discovered states.
    fn new(nfa: NFA) -> (r: DFA) {
        let ghost nv = nfa@;
        let mut d = DFA {
            states: Vec::new(),
            start: 0,
            accept: Vec::new(),
            subsets: Ghost(Seq::empty()),
            nfa: Ghost(nfa@),
        };
        proof {
            assert(d@.states =~= Seq::<SpecDfaState>::empty());
            assert(d@.accept =~= Seq::<usize>::empty());
        }
        d.add_state(DEAD_STATE);
        d.add_default_transition(DEAD_STATE, DEAD_STATE);
        let start_vec = nfa.epsilon_closure(nfa.get_start());
        d.add_state(0);
        d.set_subsets(Ghost(d@.subsets.push(start_vec@)));
        d.set_start(0);
        let ghost bound = pow2((nv.states.len() + 1) as nat) as int;
        let mut sx: Vec<Vec<usize>> = Vec::new();
        let mut wl: Vec<usize> = Vec::new();
        proof {
            lemma_iset(start_vec@);
            lemma_closure_bounds(nv, nv.start);
            assert forall|k: int| #![trigger start_vec@[k]] 0 <= k < start_vec@.len() implies ((
            (start_vec@[k] as int) < nv.states.len() as int) || (start_vec@[k]
                == usize::MAX)) by {
                assert(start_vec@.contains(start_vec@[k]));
                assert(iset(start_vec@).contains(start_vec@[k] as int));
                assert(closure_set(nv, nv.start).contains(start_vec@[k] as int));
            }
            lemma_reach_refl(nv, nv.start);
            assert(iset(start_vec@).contains(nv.start));
            assert(iset(start_vec@) != dead_set()) by {
                assert(!dead_set().contains(nv.start));
            }
        }
        sx.push(start_vec);
        wl.push(0);
        proof {
            assert(sx@.len() == 1 && wl@.len() == 1);
            assert(d@.subsets =~= sx@.map_values(|v: Vec<usize>| v@)) by {
                assert(d@.subsets.len() == 1);
                assert(sx@[0]@ == d@.subsets[0]);
            }
            assert(wl@[0] == 0);
            assert(wl@.contains(0usize));
            assert(d@.states[0] == SpecDfaState {
                transitions: Seq::empty(),
                default_transition: dead(),
            });
            assert forall|id: usize|
                (id as int) < d@.states.len() && wl@.contains(id) implies pristine(
                #[trigger] d@.states[id as int]) by {
                let k = choose|k: int| 0 <= k < wl@.len() && wl@[k] == id;
                assert(id == 0);
            }
            assert(build_inv(d@, sx@, wl@));
        }
        proof {
            vstd::arithmetic::power2::lemma_pow2_pos((nv.states.len() + 1) as nat);
        }
        while wl.len() > 0
            invariant
                nv == d@.nfa,
                nv == nfa@,
                nfa_wf(nv),
                bound == pow2((nv.states.len() + 1) as nat) as int,
                build_inv(d@, sx@, wl@),
                sx@.len() <= bound,
            decreases bound - sx@.len(), wl@.len(),
        {
            let ghost outer_sx_len = sx@.len();
            let ghost outer_wl_len = wl@.len();
            let ghost pre_wl = wl@;
            let q = match wl.pop() {
                Some(q) => q,
                None => unreached(),
            };
            proof {
                assert(q == pre_wl.last());
                assert(forall|k: int| 0 <= k < wl@.len() ==> wl@[k] == pre_wl[k]);
                assert(!wl@.contains(q)) by {
                    if wl@.contains(q) {
                        let k = choose|k: int| 0 <= k < wl@.len() && wl@[k] == q;
                        assert(pre_wl[k] == q && pre_wl[pre_wl.len() - 1] == q);
                    }
                }
                assert(pre_wl.contains(q));
                assert(pristine(d@.states[q as int]));
                assert forall|id: usize|
                    (id as int) < d@.states.len() && wl@.contains(id) implies pristine(
                    #[trigger] d@.states[id as int]) by {
                    let k = choose|k: int| 0 <= k < wl@.len() && wl@[k] == id;
                    assert(pre_wl[k] == id);
                    assert(pre_wl.contains(id));
                }
                assert forall|id: usize|
                    (id as int) < d@.states.len() && !wl@.contains(id) && id != q implies
                    state_done(
                    nv,
                    d@.subsets,
                    #[trigger] d@.states[id as int],
                    d@.subsets[id as int],
                ) by {
                    if pre_wl.contains(id) {
                        let k = choose|k: int| 0 <= k < pre_wl.len() && pre_wl[k] == id;
                        if k < pre_wl.len() - 1 {
                            assert(wl@[k] == id);
                            assert(wl@.contains(id));
                            assert(false);
                        } else {
                            assert(id == q);
                            assert(false);
                        }
                    }
                }
                assert(build_inv_except(d@, sx@, wl@, q as int));
            }
            let qs = crate::canon::copy_vec(&sx[q]);
            proof {
                assert(sx.len() == sx@.len());
                assert((q as int) < sx@.len());
                assert(q != DEAD_STATE);
                assert(qs@ == d@.subsets[q as int]);
                assert(strictly_sorted(qs@));
                assert(elems_ok(qs@, nv.states.len() as int));
            }
            let chars = collect_chars(&nfa, &qs);
            let ghost chars_s = chars@;
            let mut ci: usize = 0;
            proof {
                assert forall|c: char|
                    #![trigger assoc_get(d@.states[q as int].transitions, c)]
                    match assoc_get(d@.states[q as int].transitions, c) {
                        Some(t) => chars_s.take(0).contains(c) && target_ok(
                            d@.subsets,
                            t,
                            dstep(nv, iset(qs@), c),
                        ),
                        None => !chars_s.take(0).contains(c),
                    } by {
                    assert(d@.states[q as int].transitions.len() == 0);
                }
            }
            while ci < chars.len()
                invariant
                    nv == d@.nfa,
                    nv == nfa@,
                    nfa_wf(nv),
                    bound == pow2((nv.states.len() + 1) as nat) as int,
                    build_inv_except(d@, sx@, wl@, q as int),
                    (q as int) < d@.states.len(),
                    q != DEAD_STATE,
                    !wl@.contains(q),
                    d@.subsets[q as int] == qs@,
                    strictly_sorted(qs@),
                    elems_ok(qs@, nv.states.len() as int),
                    chars_s == chars@,
                    chars_s.no_duplicates(),
                    forall|c: char| #[trigger] chars_s.contains(c) <==> subset_has_label(
                        nv,
                        qs@,
                        c,
                    ),
                    ci <= chars_s.len(),
                    d@.states[q as int].default_transition == dead(),
                    forall|c: char|
                        match #[trigger] assoc_get(d@.states[q as int].transitions, c) {
                            Some(t) => chars_s.take(ci as int).contains(c) && target_ok(
                                d@.subsets,
                                t,
                                dstep(nv, iset(qs@), c),
                            ),
                            None => !chars_s.take(ci as int).contains(c),
                        },
                    outer_sx_len <= sx@.len(),
                    outer_wl_len - 1 <= wl@.len(),
                    sx@.len() == outer_sx_len ==> wl@.len() == outer_wl_len - 1,
                decreases chars_s.len() - ci,
            {
                let c = chars[ci];
                let next = next_subset_vec(&nfa, &qs, c);
                let ghost pre_d = d@;
                let ghost pre_sx = sx@;
                let ghost pre_wl2 = wl@;
                let id2 = find_or_insert(&mut d, &mut sx, &mut wl, next, Ghost(q as int));
                let ghost mid_d = d@;
                d.add_transition(q, c, id2);
                proof {
                    let st_old = pre_d.states[q as int];
                    let st_mid = mid_d.states[q as int];
                    assert(st_mid == st_old);
                    let st_new = d@.states[q as int];
                    assert(st_new.transitions == st_old.transitions.push((c, id2 as int)));
                    assert(st_new.default_transition == st_old.default_transition);
                    assert(c == chars_s[ci as int]);
                    assert(!chars_s.take(ci as int).contains(c)) by {
                        if chars_s.take(ci as int).contains(c) {
                            let k = choose|k: int|
                                0 <= k < ci as int && chars_s.take(ci as int)[k] == c;
                            assert(chars_s[k] == c && chars_s[ci as int] == c);
                        }
                    }
                    assert(assoc_get(st_old.transitions, c) is None);
                    assert forall|c2: char|
                        match #[trigger] assoc_get(d@.states[q as int].transitions, c2) {
                            Some(t) => chars_s.take(ci as int + 1).contains(c2) && target_ok(
                                d@.subsets,
                                t,
                                dstep(nv, iset(qs@), c2),
                            ),
                            None => !chars_s.take(ci as int + 1).contains(c2),
                        } by {
                        lemma_assoc_push(st_old.transitions, c, id2 as int, c2);
                        if c2 == c {
                            assert(assoc_get(st_new.transitions, c2) == Some(id2 as int));
                            assert(chars_s.take(ci as int + 1)[ci as int] == c);
                            assert(chars_s.take(ci as int + 1).contains(c));
                            assert(iset(next@) == dstep(nv, iset(qs@), c));
                            assert(target_ok(d@.subsets, id2 as int, dstep(nv, iset(qs@), c)));
                        } else {
                            match assoc_get(st_old.transitions, c2) {
                                Some(t) => {
                                    assert(chars_s.take(ci as int).contains(c2));
                                    let k = choose|k: int|
                                        0 <= k < ci as int && chars_s.take(ci as int)[k] == c2;
                                    assert(chars_s.take(ci as int + 1)[k] == c2);
                                    assert(chars_s.take(ci as int + 1).contains(c2));
                                    lemma_target_ok_grow(
                                        pre_d.subsets,
                                        d@.subsets,
                                        t,
                                        dstep(nv, iset(qs@), c2),
                                    );
                                },
                                None => {
                                    assert(!chars_s.take(ci as int).contains(c2));
                                    if chars_s.take(ci as int + 1).contains(c2) {
                                        let k = choose|k: int|
                                            0 <= k < ci as int + 1 && #[trigger] chars_s.take(
                                                ci as int + 1,
                                            )[k] == c2;
                                        assert(chars_s[k] == c2);
                                        if k < ci as int {
                                            assert(chars_s.take(ci as int)[k] == c2);
                                            assert(false);
                                        } else {
                                            assert(c2 == c);
                                            assert(false);
                                        }
                                    }
                                },
                            }
                        }
                    }
                    // The update keeps the invariant for the other states.
                    assert forall|id: usize|
                        (id as int) < d@.states.len() && wl@.contains(id) implies pristine(
                        #[trigger] d@.states[id as int]) by {
                        assert(id != q);
                        assert(d@.states[id as int] == mid_d.states[id as int]);
                    }
                    assert forall|id: usize|
                        (id as int) < d@.states.len() && !wl@.contains(id) && id != q implies
                        state_done(
                        nv,
                        d@.subsets,
                        #[trigger] d@.states[id as int],
                        d@.subsets[id as int],
                    ) by {
                        assert(d@.states[id as int] == mid_d.states[id as int]);
                        assert(state_done(
                            nv,
                            mid_d.subsets,
                            mid_d.states[id as int],
                            mid_d.subsets[id as int],
                        ));
                        assert(d@.subsets == mid_d.subsets);
                    }
                    assert(build_inv_except(d@, sx@, wl@, q as int));
                    // Bookkeeping for the outer measure.
                    assert(pre_sx.len() <= sx@.len());
                    if sx@.len() == outer_sx_len {
                        assert(pre_sx.len() == outer_sx_len);
                        assert(wl@.len() == pre_wl2.len());
                    }
                }
                ci = ci + 1;
            }
            let dnext = default_subset_vec(&nfa, &qs);
            let ghost pre_d = d@;
            let ghost pre_sx = sx@;
            let ghost pre_wl2 = wl@;
            let did = find_or_insert(&mut d, &mut sx, &mut wl, dnext, Ghost(q as int));
            let ghost mid_d = d@;
            d.add_default_transition(q, did);
            proof {
                let st_old = pre_d.states[q as int];
                let st_new = d@.states[q as int];
                assert(mid_d.states[q as int] == st_old);
                assert(st_new.transitions == st_old.transitions);
                assert(st_new.default_transition == did as int);
                // The processed state now resolves every scalar correctly.
                assert forall|c: char| target_ok(
                    d@.subsets,
                    #[trigger] resolve(st_new, c),
                    dstep(nv, iset(qs@), c),
                ) by {
                    match assoc_get(st_new.transitions, c) {
                        Some(t) => {
                            assert(assoc_get(st_old.transitions, c) == Some(t));
                            assert(chars_s.take(chars_s.len() as int).contains(c) && target_ok(
                                pre_d.subsets,
                                t,
                                dstep(nv, iset(qs@), c),
                            ));
                            lemma_target_ok_grow(
                                pre_d.subsets,
                                d@.subsets,
                                t,
                                dstep(nv, iset(qs@), c),
                            );
                        },
                        None => {
                            assert(!chars_s.take(chars_s.len() as int).contains(c));
                            assert(chars_s.take(chars_s.len() as int) =~= chars_s);
                            assert(!chars_s.contains(c));
                            assert(!subset_has_label(nv, qs@, c));
                            lemma_dstep_no_label(nv, qs@, c);
                            assert(iset(dnext@) == dstep_default(nv, iset(qs@)));
                            assert(target_ok(d@.subsets, did as int, iset(dnext@)));
                            assert(resolve(st_new, c) == did as int);
                        },
                    }
                }
                assert(state_done(nv, d@.subsets, st_new, qs@));
                // The worklist never re-acquires the processed state.
                assert(!wl@.contains(q)) by {
                    if wl@.contains(q) {
                        let k = choose|k: int| 0 <= k < wl@.len() && wl@[k] == q;
                        if k < pre_wl2.len() {
                            assert(pre_wl2[k] == q);
                            assert(pre_wl2.contains(q));
                        } else {
                            assert(((wl@[k]) as int) >= pre_d.states.len());
                        }
                    }
                }
                // Restore the between-states invariant.
                assert forall|id: usize|
                    (id as int) < d@.states.len() && wl@.contains(id) implies pristine(
                    #[trigger] d@.states[id as int]) by {
                    assert(id != q);
                    assert(d@.states[id as int] == mid_d.states[id as int]);
                }
                assert forall|id: usize|
                    (id as int) < d@.states.len() && !wl@.contains(id) implies state_done(
                    nv,
                    d@.subsets,
                    #[trigger] d@.states[id as int],
                    d@.subsets[id as int],
                ) by {
                    if id == q {
                        assert(d@.subsets[id as int] == qs@);
                        assert(d@.states[id as int] == st_new);
                    } else {
                        assert(d@.states[id as int] == mid_d.states[id as int]);
                        assert(state_done(
                            nv,
                            mid_d.subsets,
                            mid_d.states[id as int],
                            mid_d.subsets[id as int],
                        ));
                        assert(d@.subsets == mid_d.subsets);
                    }
                }
                assert(build_inv(d@, sx@, wl@));
                // The measure stays well-founded: the subset table is
                // bounded by the number of canonical subsets.
                lemma_subset_count(d@.subsets, nv.states.len() as int);
                assert(sx@.len() == d@.subsets.len());
                assert(sx@.len() <= bound);
                if sx@.len() == outer_sx_len {
                    assert(wl@.len() == pre_wl2.len());
                    assert(wl@.len() < outer_wl_len);
                }
            }
        }
        // Mark the accepting states.
        let accept_num = nfa.get_accept();
        let mut id: usize = 0;
        while id < sx.len()
            invariant
                nv == d@.nfa,
                nv == nfa@,
                nfa_wf(nv),
                d@.subsets == sx@.map_values(|v: Vec<usize>| v@),
                d@.states.len() == d@.subsets.len(),
                subsets_inv(nv, d@.subsets),
                d@.start == 0,
                eager_trans_inv(nv, d@.subsets, d@.states),
                accept_num as int == nv.accept,
                id <= sx@.len(),
                forall|k: int| 0 <= k < d@.accept.len() ==> ((#[trigger] d@.accept[k]) as int)
                    < d@.subsets.len(),
                forall|i: usize|
                    (i as int) < d@.subsets.len() ==> (#[trigger] d@.accept.contains(i) <==> ((
                    i as int) < id && accepting(nv, iset(d@.subsets[i as int])))),
            decreases sx@.len() - id,
        {
            let ghost pre_acc = d@.accept;
            if contains_usize(&sx[id], accept_num) {
                d.add_accept(id);
                proof {
                    assert(d@.accept == pre_acc.push(id));
                    assert(d@.accept[d@.accept.len() - 1] == id);
                    lemma_iset(sx@[id as int]@);
                    assert(sx@[id as int]@.contains(accept_num));
                    assert(iset(d@.subsets[id as int]).contains(accept_num as int));
                    assert(accepting(nv, iset(d@.subsets[id as int])));
                    assert forall|i: usize|
                        (i as int) < d@.subsets.len() implies (#[trigger] d@.accept.contains(i)
                        <==> ((i as int) < id as int + 1 && accepting(
                            nv,
                            iset(d@.subsets[i as int]),
                        ))) by {
                        assert(pre_acc.contains(i) <==> ((i as int) < id as int && accepting(
                            nv,
                            iset(d@.subsets[i as int]),
                        )));
                        if d@.accept.contains(i) {
                            let k = choose|k: int| 0 <= k < d@.accept.len() && d@.accept[k] == i;
                            if k < pre_acc.len() {
                                assert(pre_acc[k] == i);
                                assert(pre_acc.contains(i));
                            } else {
                                assert(d@.accept[k] == id);
                                assert(i == id);
                            }
                        }
                        if (i as int) < id as int + 1 && accepting(nv, iset(d@.subsets[i as int])) {
                            if (i as int) < id as int {
                                assert(pre_acc.contains(i));
                                let k = choose|k: int|
                                    0 <= k < pre_acc.len() && pre_acc[k] == i;
                                assert(d@.accept[k] == i);
                            } else {
                                assert(i == id);
                                assert(d@.accept[d@.accept.len() - 1] == id);
                            }
                        }
                    }
                }
            } else {
                proof {
                    lemma_iset(sx@[id as int]@);
                    assert(!sx@[id as int]@.contains(accept_num));
                    assert(!iset(d@.subsets[id as int]).contains(accept_num as int)) by {
                        if iset(d@.subsets[id as int]).contains(accept_num as int) {
                            assert(sx@[id as int]@.contains(accept_num));
                        }
                    }
                    assert forall|i: usize|
                        (i as int) < d@.subsets.len() implies (#[trigger] d@.accept.contains(i)
                        <==> ((i as int) < id as int + 1 && accepting(
                            nv,
                            iset(d@.subsets[i as int]),
                        ))) by {
                        assert(d@.accept.contains(i) <==> ((i as int) < id as int && accepting(
                            nv,
                            iset(d@.subsets[i as int]),
                        )));
                        if (i as int) == id as int {
                            assert(i == id);
                        }
                    }
                }
            }
            id = id + 1;
        }
        proof {
            assert(accept_inv(nv, d@.subsets, d@.accept)) by {
                assert forall|i: usize|
                    (i as int) < d@.subsets.len() implies (#[trigger] d@.accept.contains(i) <==>
                accepting(nv, iset(d@.subsets[i as int]))) by {}
            }
            assert(lazy_trans_inv(nv, d@.subsets, d@.states)) by {
                assert forall|i: int, c: char| 0 <= i < d@.states.len() implies match
                    #[trigger] assoc_get(d@.states[i].transitions, c) {
                    Some(t) => target_ok(d@.subsets, t, dstep(nv, iset(d@.subsets[i]), c)),
                    None => true,
                } by {
                    assert(target_ok(d@.subsets, resolve(d@.states[i], c), dstep(
                        nv,
                        iset(d@.subsets[i]),
                        c,
                    )));
                }
            }
            assert(dfa_wf(d@));
        }
        d
    }

    fn is_accept(&self, state: usize) -> (r: bool) {
        if state == DEAD_STATE {
            proof {
                assert(!dead_set().contains(self@.nfa.accept));
            }
            false
        } else {
            let r = contains_usize(&self.accept, state);
            proof {
                assert(self@.accept.contains(state) <==> accepting(
                    self@.nfa,
                    iset(self@.subsets[state as int]),
                ));
            }
            r
        }
    }

    fn is_dead(&self, state: usize) -> (r: bool) {
        state == DEAD_STATE
    }

    fn transition(&mut self, c: char, current_state: usize) -> (r: usize) {
        let ghost nv = self@.nfa;
        if current_state == DEAD_STATE {
            proof {
                lemma_dstep_dead(nv, c);
            }
            return DEAD_STATE;
        }
        let st = self.get_state(current_state);
        let r = match st.get_transition(c) {
            Some(t) => t,
            None => st.default_transition,
        };
        proof {
            let res = resolve(self@.states[current_state as int], c);
            assert(r as int == res);
            let bign = dstep(nv, iset(self@.subsets[current_state as int]), c);
            assert(target_ok(self@.subsets, res, bign));
            if bign == dead_set() {
                assert(r as int == dead());
                assert(r == DEAD_STATE);
            } else {
                assert((r as int) < self@.subsets.len());
                assert(r != DEAD_STATE) by {
                    assert(self.states.len() == self@.states.len());
                }
            }
        }
        r
    }

    fn get_start(&self) -> (q: usize) {
        self.start
    }
}

/// A lazily built DFA: it keeps the automaton and discovers DFA states
/// and transitions while scanning, memoizing each one.
pub struct OnTheFlyDFA {
    nfa: NFA,
    dfa: DFA,
    subsets: Vec<Vec<usize>>,
}

/// The mathematical content of a lazy DFA.
pub struct SpecLazy {
    pub nfa: SpecNfa,
    pub dfa: SpecDfa,
    pub subsets: Seq<Seq<usize>>,
}

impl View for OnTheFlyDFA {
    type V = SpecLazy;

    closed spec fn view(&self) -> SpecLazy {
        SpecLazy {
            nfa: self.nfa@,
            dfa: self.dfa@,
            subsets: self.subsets@.map_values(|v: Vec<usize>| v@),
        }
    }
}

/// Well-formedness of a lazy DFA: the canonical subset table, the accept
/// list, and every memoized transition are right for the automaton.
pub open spec fn lazy_wf(z: SpecLazy) -> bool {
    &&& nfa_wf(z.nfa)
    &&& z.dfa.nfa == z.nfa
    &&& z.dfa.subsets == z.subsets
    &&& z.dfa.states.len() == z.dfa.subsets.len()
    &&& subsets_inv(z.nfa, z.dfa.subsets)
    &&& accept_inv(z.nfa, z.dfa.subsets, z.dfa.accept)
    &&& z.dfa.start == 0
    &&& lazy_trans_inv(z.nfa, z.dfa.subsets, z.dfa.states)
}

impl DFAExt for OnTheFlyDFA {
    open spec fn wf(&self) -> bool {
        lazy_wf(self@)
    }

    open spec fn nfa_view(&self) -> SpecNfa {
        self@.nfa
    }

    open spec fn assigned(&self, q: usize) -> bool {
        q == DEAD_STATE || (q as int) < self@.dfa.states.len()
    }

    open spec fn subset_of(&self, q: usize) -> Set<int> {
        if q == DEAD_STATE {
            dead_set()
        } else {
            iset(self@.dfa.subsets[q as int])
        }
    }

    proof fn lemma_wf_nfa(&self) {
    }

    proof fn lemma_dead_subset(&self) {
    }

    /// Set up the start state; everything else is discovered on demand.
    fn new(nfa: NFA) -> (r: OnTheFlyDFA) {
        let ghost nv = nfa@;
        let mut dfa = DFA {
            states: Vec::new(),
            start: 0,
            accept: Vec::new(),
            subsets: Ghost(Seq::empty()),
            nfa: Ghost(nfa@),
        };
        proof {
            assert(dfa@.states =~= Seq::<SpecDfaState>::empty());
            assert(dfa@.accept =~= Seq::<usize>::empty());
        }
        dfa.add_state(DEAD_STATE);
        dfa.add_default_transition(DEAD_STATE, DEAD_STATE);
        let start_vec = nfa.epsilon_closure(nfa.get_start());
        let has_acc = contains_usize(&start_vec, nfa.get_accept());
        dfa.add_state(0);
        dfa.set_subsets(Ghost(dfa@.subsets.push(start_vec@)));
        dfa.set_start(0);
        proof {
            lemma_iset(start_vec@);
            lemma_closure_bounds(nv, nv.start);
            assert forall|k: int| #![trigger start_vec@[k]] 0 <= k < start_vec@.len() implies ((
            (start_vec@[k] as int) < nv.states.len() as int) || (start_vec@[k]
                == usize::MAX)) by {
                assert(start_vec@.contains(start_vec@[k]));
                assert(iset(start_vec@).contains(start_vec@[k] as int));
                assert(closure_set(nv, nv.start).contains(start_vec@[k] as int));
            }
            lemma_reach_refl(nv, nv.start);
            assert(iset(start_vec@).contains(nv.start));
            assert(iset(start_vec@) != dead_set()) by {
                assert(!dead_set().contains(nv.start));
            }
            assert(has_acc == iset(start_vec@).contains(nv.accept));
        }
        if has_acc {
            dfa.add_accept(0);
            proof {
                assert(dfa@.accept[0] == 0usize);
                assert(dfa@.accept.contains(0usize));
            }
        }
        let mut subsets: Vec<Vec<usize>> = Vec::new();
        subsets.push(start_vec);
        let r = OnTheFlyDFA { nfa, dfa, subsets };
        proof {
            assert(r@.subsets.len() == 1);
            assert(r@.subsets[0] == r@.dfa.subsets[0]);
            assert(r@.dfa.subsets =~= r@.subsets);
            assert(accept_inv(nv, r@.dfa.subsets, r@.dfa.accept)) by {
                assert forall|i: usize|
                    (i as int) < r@.dfa.subsets.len() implies (#[trigger] r@.dfa.accept.contains(
                    i) <==> accepting(nv, iset(r@.dfa.subsets[i as int]))) by {
                    assert(i == 0);
                    if r@.dfa.accept.contains(0usize) {
                        assert(r@.dfa.accept.len() == 1);
                    }
                }
            }
            assert(lazy_trans_inv(nv, r@.dfa.subsets, r@.dfa.states)) by {
                assert forall|i: int, c: char| 0 <= i < r@.dfa.states.len() implies match
                    #[trigger] assoc_get(r@.dfa.states[i].transitions, c) {
                    Some(t) => target_ok(
                        r@.dfa.subsets,
                        t,
                        dstep(nv, iset(r@.dfa.subsets[i]), c),
                    ),
                    None => true,
                } by {
                    assert(r@.dfa.states[i].transitions.len() == 0);
                }
            }
            assert(lazy_wf(r@));
        }
        r
    }

    fn is_accept(&self, state: usize) -> (r: bool) {
        if state == DEAD_STATE {
            proof {
                assert(!dead_set().contains(self@.nfa.accept));
            }
            false
        } else {
            let r = contains_usize(&self.dfa.accept, state);
            proof {
                assert(self@.dfa.accept.contains(state) <==> accepting(
                    self@.nfa,
                    iset(self@.dfa.subsets[state as int]),
                ));
            }
            r
        }
    }

    fn is_dead(&self, state: usize) -> (r: bool) {
        state == DEAD_STATE
    }

    /// Step the automaton, discovering and memoizing the target state if
    /// it has not been seen yet.
    fn transition(&mut self, c: char, current_state: usize) -> (r: usize) {
        let ghost nv = self@.nfa;
        if current_state == DEAD_STATE {
            proof {
                lemma_dstep_dead(nv, c);
            }
            return DEAD_STATE;
        }
        let t_opt = self.dfa.get_state(current_state).get_transition(c);
        if let Some(t) = t_opt {
            proof {
                assert(assoc_get(self@.dfa.states[current_state as int].transitions, c) == Some(
                    t as int,
                ));
                assert(target_ok(
                    self@.dfa.subsets,
                    t as int,
                    dstep(nv, iset(self@.dfa.subsets[current_state as int]), c),
                ));
                if dstep(nv, iset(self@.dfa.subsets[current_state as int]), c) != dead_set() {
                    assert(self.dfa.states.len() == self@.dfa.states.len());
                    assert(t != DEAD_STATE);
                }
            }
            return t;
        }
        proof {
            assert(elems_ok(self@.subsets[current_state as int], nv.states.len() as int));
        }
        let next = next_subset_vec(&self.nfa, &self.subsets[current_state], c);
        let ghost pre = self@;
        let ghost bign = dstep(nv, iset(pre.dfa.subsets[current_state as int]), c);
        let nxt: usize;
        if next.len() == 1 && next[0] == DEAD_STATE {
            proof {
                lemma_iset(next@);
                assert(next@.contains(DEAD_STATE));
                assert(iset(next@).contains(dead()));
                assert forall|t: int| iset(next@).contains(t) implies t == dead() by {
                    assert(next@.contains(t as usize));
                    let k = choose|k: int| 0 <= k < next@.len() && next@[k] == t as usize;
                    assert(k == 0);
                }
                assert(iset(next@) =~= dead_set());
            }
            nxt = DEAD_STATE;
        } else {
            proof {
                if iset(next@) == dead_set() {
                    lemma_iset(next@);
                    assert(iset(next@).contains(dead()));
                    assert(next@.contains(DEAD_STATE));
                    let k = choose|k: int| 0 <= k < next@.len() && next@[k] == DEAD_STATE;
                    if next@.len() > 1 {
                        let other = if k == 0 {
                            1
                        } else {
                            0
                        };
                        assert(next@.contains(next@[other]));
                        assert(iset(next@).contains(next@[other] as int));
                        assert(next@[other] as int == dead());
                        assert(next@[other] == DEAD_STATE);
                        assert(false);
                    }
                    assert(next@.len() == 1 && next@[0] == DEAD_STATE);
                    assert(false);
                }
            }
            let mut found: Option<usize> = None;
            let mut id: usize = 0;
            while id < self.subsets.len() && found.is_none()
                invariant
                    self@ == pre,
                    id <= pre.subsets.len(),
                    found is None ==> forall|i: int| 0 <= i < id ==> (#[trigger] pre.subsets[i])
                        != next@,
                    found matches Some(f) ==> (f as int) < pre.subsets.len() && f != DEAD_STATE
                        && pre.subsets[f as int] == next@,
                decreases pre.subsets.len() - id, (if found is None { 1int } else { 0int }),
            {
                if vec_eq(&self.subsets[id], &next) {
                    proof {
                        assert(self.subsets.len() == self.subsets@.len());
                        assert(id != DEAD_STATE);
                    }
                    found = Some(id);
                } else {
                    id = id + 1;
                }
            }
            proof {
                if found is None {
                    assert(self.subsets.len() == self.subsets@.len());
                    assert(id >= pre.subsets.len());
                }
            }
            match found {
                Some(f) => {
                    nxt = f;
                    proof {
                        assert(f != DEAD_STATE);
                        assert(self@.dfa.subsets[f as int] == next@);
                    }
                },
                None => {
                    proof {
                        assert(id >= pre.subsets.len());
                    }
                    let newid = self.dfa.states.len();
                    let has_acc = contains_usize(&next, self.nfa.get_accept());
                    let ghost pre_acc = self@.dfa.accept;
                    self.dfa.add_state(newid);
                    self.dfa.set_subsets(Ghost(self.dfa@.subsets.push(next@)));
                    self.subsets.push(next);
                    if has_acc {
                        self.dfa.add_accept(newid);
                    }
                    nxt = newid;
                    proof {
                        assert(self.subsets.len() == self.subsets@.len());
                        assert(pre.subsets.len() < usize::MAX);
                        assert(newid != DEAD_STATE);
                        let subs1 = pre.dfa.subsets;
                        let subs2 = self@.dfa.subsets;
                        assert(subs2 == subs1.push(next@));
                        assert(self@.subsets =~= subs2) by {
                            assert(self@.subsets.len() == subs2.len());
                            assert forall|i: int| 0 <= i < self@.subsets.len() implies
                                self@.subsets[i] == subs2[i] by {
                                if i < pre.subsets.len() {
                                    assert(self@.subsets[i] == pre.subsets[i]);
                                    assert(subs2[i] == subs1[i]);
                                    assert(pre.subsets[i] == subs1[i]);
                                } else {
                                    assert(self@.subsets[i] == next@);
                                    assert(subs2[i] == next@);
                                }
                            }
                        }
                        // The grown subset table stays canonical.
                        assert forall|i: int| 0 <= i < subs2.len() implies strictly_sorted(
                            #[trigger] subs2[i],
                        ) && elems_ok(subs2[i], nv.states.len() as int) && iset(subs2[i])
                            != dead_set() by {
                            if i < subs1.len() {
                                assert(subs2[i] == subs1[i]);
                            } else {
                                assert(subs2[i] == next@);
                            }
                        }
                        assert forall|i: int, j: int| 0 <= i < j < subs2.len() implies subs2[i]
                            != subs2[j] by {
                            if j < subs1.len() {
                                assert(subs2[i] == subs1[i] && subs2[j] == subs1[j]);
                            } else {
                                assert(subs2[j] == next@);
                                if i < subs1.len() {
                                    assert(subs2[i] == subs1[i]);
                                    assert(pre.subsets[i] != next@);
                                }
                            }
                        }
                        assert(iset(subs2[0]) == start_set(nv)) by {
                            assert(subs2[0] == subs1[0]);
                        }
                        // The accept list stays exact.
                        lemma_iset(next@);
                        assert(has_acc == iset(next@).contains(nv.accept));
                        assert(accept_inv(nv, subs2, self@.dfa.accept)) by {
                            assert forall|i: usize|
                                (i as int) < subs2.len() implies (
                            #[trigger] self@.dfa.accept.contains(i) <==> accepting(
                                nv,
                                iset(subs2[i as int]),
                            )) by {
                                assert(pre_acc.contains(i) <==> ((i as int) < subs1.len()
                                    && accepting(nv, iset(subs1[i as int]))) || (
                                pre_acc.contains(i) && (i as int) >= subs1.len()));
                                if (i as int) < subs1.len() {
                                    assert(pre_acc.contains(i) <==> accepting(
                                        nv,
                                        iset(subs1[i as int]),
                                    ));
                                    if self@.dfa.accept.contains(i) && !pre_acc.contains(i) {
                                        let k = choose|k: int|
                                            0 <= k < self@.dfa.accept.len()
                                                && self@.dfa.accept[k] == i;
                                        assert(k >= pre_acc.len());
                                        assert(self@.dfa.accept[k] == newid);
                                        assert(false);
                                    }
                                    if pre_acc.contains(i) {
                                        let k = choose|k: int|
                                            0 <= k < pre_acc.len() && pre_acc[k] == i;
                                        assert(self@.dfa.accept[k] == i);
                                    }
                                } else {
                                    assert(i == newid);
                                    if has_acc {
                                        assert(self@.dfa.accept.last() == newid);
                                        assert(self@.dfa.accept.contains(i));
                                        assert(accepting(nv, iset(subs2[i as int])));
                                    } else {
                                        assert(!accepting(nv, iset(subs2[i as int])));
                                        if self@.dfa.accept.contains(i) {
                                            let k = choose|k: int|
                                                0 <= k < self@.dfa.accept.len()
                                                    && self@.dfa.accept[k] == i;
                                            assert(pre_acc[k] == i);
                                            assert(pre_acc.contains(i));
                                            let k2 = choose|k2: int|
                                                0 <= k2 < pre_acc.len() && pre_acc[k2] == i;
                                            assert((pre_acc[k2] as int) < subs1.len());
                                            assert(false);
                                        }
                                    }
                                }
                            }
                        }
                        // Memoized transitions stay right.
                        assert(lazy_trans_inv(nv, subs2, self@.dfa.states)) by {
                            assert forall|i: int, c2: char|
                                0 <= i < self@.dfa.states.len() implies match
                                #[trigger] assoc_get(self@.dfa.states[i].transitions, c2) {
                                Some(t) => target_ok(subs2, t, dstep(nv, iset(subs2[i]), c2)),
                                None => true,
                            } by {
                                if i < pre.dfa.states.len() {
                                    assert(self@.dfa.states[i] == pre.dfa.states[i]);
                                    assert(subs2[i] == subs1[i]);
                                    match assoc_get(self@.dfa.states[i].transitions, c2) {
                                        Some(t) => {
                                            assert(target_ok(
                                                subs1,
                                                t,
                                                dstep(nv, iset(subs1[i]), c2),
                                            ));
                                            lemma_target_ok_grow(
                                                subs1,
                                                subs2,
                                                t,
                                                dstep(nv, iset(subs1[i]), c2),
                                            );
                                        },
                                        None => {},
                                    }
                                } else {
                                    assert(self@.dfa.states[i].transitions.len() == 0);
                                }
                            }
                        }
                        assert(self@.dfa.subsets[nxt as int] == next@);
                    }
                },
            }
        }
        let ghost mid = self@;
        proof {
            assert(target_ok(mid.dfa.subsets, nxt as int, iset(next@)));
            assert(iset(next@) == bign);
        }
        self.dfa.add_transition(current_state, c, nxt);
        proof {
            let subs = self@.dfa.subsets;
            assert(subs == mid.dfa.subsets);
            let st_old = mid.dfa.states[current_state as int];
            let st_new = self@.dfa.states[current_state as int];
            assert(st_new.transitions == st_old.transitions.push((c, nxt as int)));
            assert(lazy_trans_inv(nv, subs, self@.dfa.states)) by {
                assert forall|i: int, c2: char| 0 <= i < self@.dfa.states.len() implies match
                    #[trigger] assoc_get(self@.dfa.states[i].transitions, c2) {
                    Some(t) => target_ok(subs, t, dstep(nv, iset(subs[i]), c2)),
                    None => true,
                } by {
                    if i == current_state as int {
                        lemma_assoc_push(st_old.transitions, c, nxt as int, c2);
                        match assoc_get(st_old.transitions, c2) {
                            Some(t) => {
                                assert(assoc_get(st_new.transitions, c2) == Some(t));
                            },
                            None => {
                                if c2 == c {
                                    assert(assoc_get(st_new.transitions, c2) == Some(
                                        nxt as int,
                                    ));
                                    assert(iset(subs[i]) == iset(
                                        pre.dfa.subsets[current_state as int],
                                    ));
                                    assert(target_ok(subs, nxt as int, bign));
                                }
                            },
                        }
                    } else {
                        assert(self@.dfa.states[i] == mid.dfa.states[i]);
                    }
                }
            }
            assert(lazy_wf(self@));
            if nxt == DEAD_STATE {
                assert(bign == dead_set());
            } else {
                assert(iset(self@.dfa.subsets[nxt as int]) == bign);
            }
        }
        nxt
    }

    fn get_start(&self) -> (q: usize) {
        let r = self.dfa.get_start();
        r
    }
}

} // verus!
