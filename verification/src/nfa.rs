//! Thompson construction: from syntax trees to nondeterministic automata.
//!
//! States carry labelled transitions (an association list from scalar to
//! target), epsilon transitions, and a default transition taken by scalars
//! with no labelled edge.  The default target is `DEAD_STATE` except for
//! states built from a negated class, whose default leads to the fragment's
//! accept state.  State identifiers are dense indices into the state vector.

use vstd::prelude::*;
use crate::parse::{Node, SpecNode};

verus! {

/// Sentinel state identifier: the automaton rejects once it reaches it.
pub const DEAD_STATE: usize = usize::MAX;

/// `DEAD_STATE` as a mathematical integer.
pub open spec fn dead() -> int {
    usize::MAX as int
}

/// One NFA state.
pub struct State {
    /// Labelled transitions; the first entry for a scalar wins.
    pub transitions: Vec<(char, usize)>,
    /// Targets reachable without consuming a scalar.
    pub epsilon_transitions: Vec<usize>,
    /// Target for scalars with no labelled transition.
    pub default_transition: usize,
    /// The state's own identifier.
    pub state_num: usize,
}

/// The mathematical content of a state, with identifiers as integers.
pub struct SpecState {
    pub transitions: Seq<(char, int)>,
    pub epsilon_transitions: Seq<int>,
    pub default_transition: int,
    pub state_num: int,
}

impl View for State {
    type V = SpecState;

    open spec fn view(&self) -> SpecState {
        SpecState {
            transitions: self.transitions@.map_values(|p: (char, usize)| (p.0, p.1 as int)),
            epsilon_transitions: self.epsilon_transitions@.map_values(|t: usize| t as int),
            default_transition: self.default_transition as int,
            state_num: self.state_num as int,
        }
    }
}

/// A whole NFA: its states, the start identifier and the accept identifier.
pub struct NFA {
    states: Vec<State>,
    start: usize,
    accept: usize,
}

/// The mathematical content of an NFA.
pub struct SpecNfa {
    pub states: Seq<SpecState>,
    pub start: int,
    pub accept: int,
}

impl View for NFA {
    type V = SpecNfa;

    closed spec fn view(&self) -> SpecNfa {
        SpecNfa {
            states: self.states@.map_values(|s: State| s@),
            start: self.start as int,
            accept: self.accept as int,
        }
    }
}

/// Look a scalar up in an association list; the first entry wins.
pub open spec fn assoc_get(m: Seq<(char, int)>, c: char) -> Option<int>
    decreases m.len(),
{
    if m.len() == 0 {
        None
    } else if m[0].0 == c {
        Some(m[0].1)
    } else {
        assoc_get(m.skip(1), c)
    }
}

/// Every structural identifier of the automaton is in range: states know
/// their own index, every epsilon target exists, every labelled target and
/// every default either exists or is the dead sentinel, and the start and
/// accept identifiers exist.
pub open spec fn nfa_wf(n: SpecNfa) -> bool {
    &&& forall|i: int|
        0 <= i < n.states.len() ==> (#[trigger] n.states[i]).state_num == i
    &&& forall|i: int, j: int|
        0 <= i < n.states.len() && 0 <= j < (#[trigger] n.states[i].epsilon_transitions).len()
            ==> 0 <= #[trigger] n.states[i].epsilon_transitions[j] < n.states.len()
    &&& forall|i: int, j: int|
        0 <= i < n.states.len() && 0 <= j < (#[trigger] n.states[i].transitions).len() ==> (0
            <= #[trigger] n.states[i].transitions[j].1 < n.states.len()
            || n.states[i].transitions[j].1 == dead())
    &&& forall|i: int|
        0 <= i < n.states.len() ==> (0 <= (#[trigger] n.states[i]).default_transition
            < n.states.len() || n.states[i].default_transition == dead())
    &&& 0 <= n.start < n.states.len()
    &&& 0 <= n.accept < n.states.len()
    &&& n.states.len() <= usize::MAX as int
}

impl State {
    /// A fresh state with the given identifier and no transitions.
    pub fn new(state_num: usize) -> (r: State)
        ensures
            r@ == (SpecState {
                transitions: Seq::empty(),
                epsilon_transitions: Seq::empty(),
                default_transition: dead(),
                state_num: state_num as int,
            }),
    {
        let r = State {
            transitions: Vec::new(),
            epsilon_transitions: Vec::new(),
            default_transition: DEAD_STATE,
            state_num,
        };
        proof {
            assert(r@.transitions =~= Seq::<(char, int)>::empty());
            assert(r@.epsilon_transitions =~= Seq::<int>::empty());
        }
        r
    }

    /// Append a labelled transition; earlier entries for the same scalar
    /// keep priority on lookup.
    pub fn add_transition(&mut self, c: char, state_num: usize)
        ensures
            final(self)@ == (SpecState {
                transitions: old(self)@.transitions.push((c, state_num as int)),
                ..old(self)@
            }),
    {
        self.transitions.push((c, state_num));
        proof {
            assert(self@.transitions =~= old(self)@.transitions.push((c, state_num as int)));
        }
    }

    /// Append an epsilon transition.
    pub fn add_epsilon_transition(&mut self, state_num: usize)
        ensures
            final(self)@ == (SpecState {
                epsilon_transitions: old(self)@.epsilon_transitions.push(state_num as int),
                ..old(self)@
            }),
    {
        self.epsilon_transitions.push(state_num);
        proof {
            assert(self@.epsilon_transitions =~= old(self)@.epsilon_transitions.push(
                state_num as int,
            ));
        }
    }

    /// The target of the labelled transition for a scalar, if any.
    pub fn get_transition(&self, c: char) -> (r: Option<usize>)
        ensures
            match r {
                Some(t) => assoc_get(self@.transitions, c) == Some(t as int),
                None => assoc_get(self@.transitions, c) is None,
            },
    {
        let mut i: usize = 0;
        proof {
            assert(self@.transitions.skip(0) =~= self@.transitions);
        }
        while i < self.transitions.len()
            invariant
                i <= self.transitions@.len(),
                assoc_get(self@.transitions, c) == assoc_get(
                    self@.transitions.skip(i as int),
                    c,
                ),
            decreases self.transitions@.len() - i,
        {
            let (cc, t) = self.transitions[i];
            proof {
                assert(self@.transitions.skip(i as int)[0] == (cc, t as int));
            }
            if cc == c {
                return Some(t);
            }
            proof {
                assert(self@.transitions.skip(i as int).skip(1) =~= self@.transitions.skip(
                    i as int + 1,
                ));
            }
            i = i + 1;
        }
        proof {
            assert(self@.transitions.skip(i as int).len() == 0);
        }
        None
    }

    /// Set the default transition.
    pub fn set_default_transition(&mut self, state_num: usize)
        ensures
            final(self)@ == (SpecState {
                default_transition: state_num as int,
                ..old(self)@
            }),
    {
        self.default_transition = state_num;
    }

    /// The state's own identifier.
    pub fn get_state_num(&self) -> (r: usize)
        ensures
            r as int == self@.state_num,
    {
        self.state_num
    }
}

impl NFA {
    /// An empty automaton.
    pub fn new() -> (r: NFA)
        ensures
            r@ == (SpecNfa { states: Seq::empty(), start: 0, accept: 0 }),
    {
        let r = NFA { states: Vec::new(), start: 0, accept: 0 };
        proof {
            assert(r@.states =~= Seq::<SpecState>::empty());
        }
        r
    }

    /// Append an epsilon transition to an existing state.
    pub fn add_epsilon_transition(&mut self, state_num: usize, next_state_num: usize)
        requires
            state_num < old(self)@.states.len(),
        ensures
            final(self)@ == (SpecNfa {
                states: old(self)@.states.update(
                    state_num as int,
                    SpecState {
                        epsilon_transitions: old(self)@.states[state_num as int]
                            .epsilon_transitions.push(next_state_num as int),
                        ..old(self)@.states[state_num as int]
                    },
                ),
                ..old(self)@
            }),
    {
        let st = &mut self.states[state_num];
        st.add_epsilon_transition(next_state_num);
        proof {
            assert(self@.states =~= old(self)@.states.update(
                state_num as int,
                SpecState {
                    epsilon_transitions: old(self)@.states[state_num as int]
                        .epsilon_transitions.push(next_state_num as int),
                    ..old(self)@.states[state_num as int]
                },
            ));
        }
    }

    /// Append a state; its identifier must be the next free index.
    fn add_state(&mut self, state: State)
        requires
            state@.state_num == old(self)@.states.len(),
        ensures
            final(self)@ == (SpecNfa {
                states: old(self)@.states.push(state@),
                ..old(self)@
            }),
    {
        self.states.push(state);
        proof {
            assert(self@.states =~= old(self)@.states.push(state@));
        }
    }

    /// All states, indexed by identifier.
    #[allow(dead_code)]
    fn get_states(&self) -> (r: &Vec<State>)
        ensures
            r@.map_values(|s: State| s@) == self@.states,
    {
        &self.states
    }

    /// The state with the given identifier, if it exists.
    pub fn get_state(&self, state_num: usize) -> (r: Option<&State>)
        ensures
            match r {
                Some(s) => state_num < self@.states.len() && s@ == self@.states[state_num as int],
                None => state_num >= self@.states.len(),
            },
    {
        if state_num < self.states.len() {
            Some(&self.states[state_num])
        } else {
            None
        }
    }

    /// The state with the given identifier, for mutation.
    #[allow(dead_code)]
    fn get_state_mut(&mut self, state_num: usize) -> (r: Option<&mut State>)
        requires
            state_num < old(self)@.states.len(),
        ensures
            match r {
                Some(_) => true,
                None => false,
            },
    {
        if state_num < self.states.len() {
            Some(&mut self.states[state_num])
        } else {
            None
        }
    }

    /// Set the start identifier.
    pub fn set_start(&mut self, state_num: usize)
        ensures
            final(self)@ == (SpecNfa { start: state_num as int, ..old(self)@ }),
    {
        self.start = state_num;
    }

    /// Set the accept identifier.
    pub fn set_accept(&mut self, state_num: usize)
        ensures
            final(self)@ == (SpecNfa { accept: state_num as int, ..old(self)@ }),
    {
        self.accept = state_num;
    }

    /// The start identifier.
    pub fn get_start(&self) -> (r: usize)
        ensures
            r as int == self@.start,
    {
        self.start
    }

    /// The accept identifier.
    pub fn get_accept(&self) -> (r: usize)
        ensures
            r as int == self@.accept,
    {
        self.accept
    }
}

/// An epsilon edge of the automaton, between states given as integers.
pub open spec fn eps_edge(n: SpecNfa, a: int, b: int) -> bool {
    0 <= a < n.states.len() && n.states[a].epsilon_transitions.contains(b)
}

/// A non-empty walk along epsilon edges.
pub open spec fn is_eps_path(n: SpecNfa, p: Seq<int>) -> bool {
    p.len() >= 1 && forall|i: int| 0 <= i < p.len() - 1 ==> eps_edge(n, #[trigger] p[i], p[i + 1])
}

/// Whether `to` is reachable from `from` along epsilon edges.
pub open spec fn eps_reach(n: SpecNfa, from: int, to: int) -> bool {
    exists|p: Seq<int>| is_eps_path(n, p) && p.first() == from && p.last() == to
}

/// The epsilon closure of a state: everything reachable from it without
/// consuming a scalar.  An identifier outside the automaton, such as the
/// dead sentinel, closes to itself alone.
pub open spec fn closure_set(n: SpecNfa, q: int) -> Set<int> {
    if 0 <= q < n.states.len() {
        Set::new(|t: int| eps_reach(n, q, t))
    } else {
        set![q]
    }
}

/// Every state reaches itself.
pub proof fn lemma_reach_refl(n: SpecNfa, q: int)
    ensures
        eps_reach(n, q, q),
{
    let p = seq![q];
    assert(is_eps_path(n, p) && p.first() == q && p.last() == q);
}

/// Reachability extends along a further epsilon edge.
pub proof fn lemma_reach_step(n: SpecNfa, q: int, x: int, y: int)
    requires
        eps_reach(n, q, x),
        eps_edge(n, x, y),
    ensures
        eps_reach(n, q, y),
{
    let p = choose|p: Seq<int>| is_eps_path(n, p) && p.first() == q && p.last() == x;
    let p2 = p.push(y);
    assert forall|i: int| 0 <= i < p2.len() - 1 implies eps_edge(n, #[trigger] p2[i], p2[i + 1]) by {
        if i < p.len() - 1 {
            assert(p2[i] == p[i] && p2[i + 1] == p[i + 1]);
        } else {
            assert(p2[i] == p.last() && p2[i + 1] == y);
        }
    }
    assert(is_eps_path(n, p2) && p2.first() == q && p2.last() == y);
}

/// The last state of an epsilon walk whose start lies in a set closed
/// under epsilon edges also lies in that set.
proof fn lemma_path_in_closed(n: SpecNfa, s: Set<int>, p: Seq<int>)
    requires
        is_eps_path(n, p),
        s.contains(p.first()),
        forall|x: int, y: int| s.contains(x) && eps_edge(n, x, y) ==> s.contains(y),
    ensures
        s.contains(p.last()),
    decreases p.len(),
{
    if p.len() == 1 {
    } else {
        assert(eps_edge(n, p[0], p[1]));
        let p2 = p.skip(1);
        assert(is_eps_path(n, p2)) by {
            assert forall|i: int| 0 <= i < p2.len() - 1 implies eps_edge(
                n,
                #[trigger] p2[i],
                p2[i + 1],
            ) by {
                assert(p2[i] == p[i + 1] && p2[i + 1] == p[i + 2]);
                assert(eps_edge(n, p[i + 1], p[i + 2]));
            }
        }
        assert(s.contains(p2.first()));
        lemma_path_in_closed(n, s, p2);
        assert(p2.last() == p.last());
    }
}

/// Everything reachable from a member of an epsilon-closed set lies in
/// the set.
pub proof fn lemma_closed_reach(n: SpecNfa, s: Set<int>, q: int, t: int)
    requires
        s.contains(q),
        forall|x: int, y: int| s.contains(x) && eps_edge(n, x, y) ==> s.contains(y),
        eps_reach(n, q, t),
    ensures
        s.contains(t),
{
    let p = choose|p: Seq<int>| is_eps_path(n, p) && p.first() == q && p.last() == t;
    lemma_path_in_closed(n, s, p);
}

impl NFA {
    /// The canonical vector of states reachable from `state_num` along
    /// epsilon transitions alone.
    pub fn epsilon_closure(&self, state_num: usize) -> (r: Vec<usize>)
        requires
            nfa_wf(self@),
        ensures
            crate::canon::strictly_sorted(r@),
            crate::canon::iset(r@) == closure_set(self@, state_num as int),
    {
        let n = self.states.len();
        if state_num >= n {
            let mut closure: Vec<usize> = Vec::new();
            closure.push(state_num);
            proof {
                crate::canon::lemma_iset(closure@);
                assert(closure@[0] == state_num);
                assert(closure@.contains(state_num));
                assert forall|t: int| crate::canon::iset(closure@).contains(t) implies set![
                    state_num as int,
                ].contains(t) by {
                    assert(closure@.contains(t as usize));
                    assert(closure@[0] == state_num);
                }
                assert(crate::canon::iset(closure@) =~= set![state_num as int]);
            }
            return closure;
        }
        let ghost nv = self@;
        let ghost q = state_num as int;
        let mut closure: Vec<usize> = Vec::new();
        let mut visited: Vec<usize> = Vec::new();
        let mut stack: Vec<usize> = Vec::new();
        stack.push(state_num);
        proof {
            lemma_reach_refl(nv, q);
            assert(stack@[0] == state_num);
        }
        while stack.len() > 0
            invariant
                nfa_wf(nv),
                nv == self@,
                n == nv.states.len(),
                0 <= q < nv.states.len(),
                closure@ == visited@,
                visited@.no_duplicates(),
                visited@.len() <= nv.states.len(),
                forall|i: int| 0 <= i < visited@.len() ==> (#[trigger] visited@[i]) < n,
                forall|i: int| 0 <= i < stack@.len() ==> (#[trigger] stack@[i]) < n,
                forall|i: int| 0 <= i < visited@.len() ==> eps_reach(
                    nv,
                    q,
                    (#[trigger] visited@[i]) as int,
                ),
                forall|i: int| 0 <= i < stack@.len() ==> eps_reach(
                    nv,
                    q,
                    (#[trigger] stack@[i]) as int,
                ),
                visited@.contains(state_num) || stack@.contains(state_num),
                forall|i: int, b: int|
                    0 <= i < visited@.len() && #[trigger] eps_edge(nv, visited@[i] as int, b)
                        ==> visited@.contains(b as usize) || stack@.contains(b as usize),
            decreases nv.states.len() - visited@.len(), stack@.len(),
        {
            let ghost pre_stack = stack@;
            let x = match stack.pop() {
                Some(x) => x,
                None => unreached(),
            };
            proof {
                assert(x == pre_stack.last());
                assert(forall|i: int| 0 <= i < stack@.len() ==> stack@[i] == pre_stack[i]);
                assert forall|e: usize| pre_stack.contains(e) implies stack@.contains(e) || e
                    == x by {
                    let i = choose|i: int| 0 <= i < pre_stack.len() && pre_stack[i] == e;
                    if i < pre_stack.len() - 1 {
                        assert(stack@[i] == e);
                    }
                }
            }
            if crate::canon::contains_usize(&visited, x) {
                continue;
            }
            let ghost pre_visited = visited@;
            visited.push(x);
            closure.push(x);
            let state = match self.get_state(x) {
                Some(s) => s,
                None => unreached(),
            };
            let ghost mid_stack = stack@;
            crate::canon::push_all(&mut stack, &state.epsilon_transitions);
            proof {
                let xs = nv.states[x as int];
                assert(state@ == xs);
                // The new visited entry is reachable, in range, and fresh.
                assert(eps_reach(nv, q, x as int));
                assert(visited@ == pre_visited.push(x));
                assert forall|i: int| 0 <= i < visited@.len() implies eps_reach(
                    nv,
                    q,
                    (#[trigger] visited@[i]) as int,
                ) by {
                    if i < pre_visited.len() {
                        assert(visited@[i] == pre_visited[i]);
                    }
                }
                // Everything newly on the stack is an epsilon target of x.
                assert forall|i: int| 0 <= i < stack@.len() implies (#[trigger] stack@[i]) < n
                    && eps_reach(nv, q, stack@[i] as int) by {
                    if i < mid_stack.len() {
                        assert(stack@[i] == mid_stack[i]);
                    } else {
                        let j = i - mid_stack.len();
                        assert(stack@[i] == state.epsilon_transitions@[j]);
                        assert(xs.epsilon_transitions[j] == state.epsilon_transitions@[j] as int);
                        assert(eps_edge(nv, x as int, stack@[i] as int));
                        lemma_reach_step(nv, q, x as int, stack@[i] as int);
                    }
                }
                // Closure property: targets of every visited state are in
                // visited or on the stack.
                assert forall|i: int, b: int|
                    0 <= i < visited@.len() && #[trigger] eps_edge(
                        nv,
                        visited@[i] as int,
                        b,
                    ) implies visited@.contains(b as usize) || stack@.contains(b as usize) by {
                    if i < pre_visited.len() {
                        assert(visited@[i] == pre_visited[i]);
                        assert(pre_visited.contains(b as usize) || pre_stack.contains(
                            b as usize,
                        ));
                        if pre_visited.contains(b as usize) {
                            let jj = choose|jj: int|
                                0 <= jj < pre_visited.len() && pre_visited[jj] == b as usize;
                            assert(visited@[jj] == b as usize);
                        } else {
                            if b as usize == x {
                                assert(visited@.last() == b as usize);
                            } else {
                                assert(mid_stack.contains(b as usize));
                                let jj = choose|jj: int|
                                    0 <= jj < mid_stack.len() && mid_stack[jj] == b as usize;
                                assert(stack@[jj] == b as usize);
                            }
                        }
                    } else {
                        assert(visited@[i] == x);
                        let jj = choose|jj: int|
                            0 <= jj < xs.epsilon_transitions.len() && xs.epsilon_transitions[jj]
                                == b;
                        assert(stack@[mid_stack.len() + jj] == state.epsilon_transitions@[jj]);
                        assert(state.epsilon_transitions@[jj] as int == b);
                        assert(stack@.contains(b as usize));
                    }
                }
                // The start state stays accounted for.
                if pre_visited.contains(state_num) {
                    let jj = choose|jj: int|
                        0 <= jj < pre_visited.len() && pre_visited[jj] == state_num;
                    assert(visited@[jj] == state_num);
                } else if state_num == x {
                    assert(visited@.last() == state_num);
                } else {
                    assert(pre_stack.contains(state_num));
                    assert(mid_stack.contains(state_num));
                    let jj = choose|jj: int|
                        0 <= jj < mid_stack.len() && mid_stack[jj] == state_num;
                    assert(stack@[jj] == state_num);
                }
                // The visited vector stays within the state count.
                let m = visited@.map_values(|y: usize| y as int);
                assert forall|i: int| 0 <= i < m.len() implies 0 <= #[trigger] m[i]
                    < nv.states.len() by {
                    assert(m[i] == visited@[i] as int);
                }
                assert(m.no_duplicates()) by {
                    assert forall|i: int, j: int|
                        0 <= i < m.len() && 0 <= j < m.len() && i != j implies m[i] != m[j] by {
                        assert(visited@[i] != visited@[j]);
                    }
                }
                crate::canon::lemma_distinct_bounded(m, 0, nv.states.len() as int);
            }
        }
        proof {
            crate::canon::lemma_iset(visited@);
            let vs = crate::canon::iset(visited@);
            assert forall|x2: int, y: int| vs.contains(x2) && eps_edge(nv, x2, y) implies
                vs.contains(y) by {
                assert(visited@.contains(x2 as usize));
                let i = choose|i: int| 0 <= i < visited@.len() && visited@[i] == x2 as usize;
                assert(eps_edge(nv, visited@[i] as int, y));
                assert(visited@.contains(y as usize) || stack@.contains(y as usize));
                assert(stack@.len() == 0);
                assert(visited@.contains(y as usize));
                assert(0 <= y < nv.states.len());
                assert((y as usize) as int == y);
                assert(vs.contains((y as usize) as int));
            }
            assert(visited@.contains(state_num));
            assert(vs.contains(q));
            assert forall|t: int| closure_set(nv, q).contains(t) implies vs.contains(t) by {
                assert(eps_reach(nv, q, t));
                lemma_closed_reach(nv, vs, q, t);
            }
            assert forall|t: int| vs.contains(t) implies closure_set(nv, q).contains(t) by {
                assert(visited@.contains(t as usize));
                let i = choose|i: int| 0 <= i < visited@.len() && visited@[i] == t as usize;
                assert(eps_reach(nv, q, visited@[i] as int));
            }
            assert(crate::canon::iset(visited@) =~= closure_set(nv, q));
        }
        let r = crate::canon::sort_dedup(&closure);
        r
    }
}

/// The number of states the fragment of a syntax tree occupies.
pub open spec fn sp_size(n: SpecNode) -> int
    decreases n,
{
    match n {
        SpecNode::Char(_) => 2,
        SpecNode::Empty => 2,
        SpecNode::NegChar(_) => 2,
        SpecNode::Concat(a, b) => 2 + sp_size(*a) + sp_size(*b),
        SpecNode::Union(a, b) => 2 + sp_size(*a) + sp_size(*b),
        SpecNode::Repeat(a) => 2 + sp_size(*a),
    }
}

pub proof fn lemma_sp_size_pos(n: SpecNode)
    ensures
        sp_size(n) >= 2,
    decreases n,
{
    match n {
        SpecNode::Concat(a, b) => {
            lemma_sp_size_pos(*a);
            lemma_sp_size_pos(*b);
        },
        SpecNode::Union(a, b) => {
            lemma_sp_size_pos(*a);
            lemma_sp_size_pos(*b);
        },
        SpecNode::Repeat(a) => {
            lemma_sp_size_pos(*a);
        },
        _ => {},
    }
}

/// A state given by its parts.
pub open spec fn mk_state(num: int, trans: Seq<(char, int)>, eps: Seq<int>, def: int) -> SpecState {
    SpecState {
        transitions: trans,
        epsilon_transitions: eps,
        default_transition: def,
        state_num: num,
    }
}

/// Replace the epsilon list of a fragment's accept state, its last state.
pub open spec fn set_accept_eps(s: Seq<SpecState>, eps: Seq<int>) -> Seq<SpecState> {
    s.update(s.len() - 1, SpecState { epsilon_transitions: eps, ..s[s.len() - 1] })
}

/// The labelled transitions of a negated-class entry state: each excluded
/// scalar leads to the dead sentinel.
pub open spec fn neg_transitions(ex: Seq<char>) -> Seq<(char, int)> {
    ex.map_values(|c: char| (c, dead()))
}

/// The states of the fragment a syntax tree compiles to, when its entry
/// state gets identifier `k`.  The entry is the first state, the accept is
/// the last, and the accept has no outgoing edges.
pub open spec fn sp_frag(n: SpecNode, k: int) -> Seq<SpecState>
    decreases n,
{
    match n {
        SpecNode::Char(c) => seq![
            mk_state(k, seq![(c, k + 1)], Seq::empty(), dead()),
            mk_state(k + 1, Seq::empty(), Seq::empty(), dead()),
        ],
        SpecNode::Empty => seq![
            mk_state(k, Seq::empty(), seq![k + 1], dead()),
            mk_state(k + 1, Seq::empty(), Seq::empty(), dead()),
        ],
        SpecNode::NegChar(ex) => seq![
            mk_state(k, neg_transitions(ex), Seq::empty(), k + 1),
            mk_state(k + 1, Seq::empty(), Seq::empty(), dead()),
        ],
        SpecNode::Concat(a, b) => {
            let a_acc = k + sp_size(*a);
            let b_acc = a_acc + sp_size(*b);
            seq![mk_state(k, Seq::empty(), seq![k + 1], dead())] + set_accept_eps(
                sp_frag(*a, k + 1),
                seq![a_acc + 1],
            ) + set_accept_eps(sp_frag(*b, a_acc + 1), seq![b_acc + 1]) + seq![
                mk_state(b_acc + 1, Seq::empty(), Seq::empty(), dead()),
            ]
        },
        SpecNode::Union(a, b) => {
            let a_acc = k + sp_size(*a);
            let b_acc = a_acc + sp_size(*b);
            seq![mk_state(k, Seq::empty(), seq![k + 1, a_acc + 1], dead())] + set_accept_eps(
                sp_frag(*a, k + 1),
                seq![b_acc + 1],
            ) + set_accept_eps(sp_frag(*b, a_acc + 1), seq![b_acc + 1]) + seq![
                mk_state(b_acc + 1, Seq::empty(), Seq::empty(), dead()),
            ]
        },
        SpecNode::Repeat(a) => {
            let a_acc = k + sp_size(*a);
            seq![mk_state(k, Seq::empty(), seq![k + 1, a_acc + 1], dead())] + set_accept_eps(
                sp_frag(*a, k + 1),
                seq![k + 1, k],
            ) + seq![mk_state(a_acc + 1, Seq::empty(), Seq::empty(), dead())]
        },
    }
}

/// Structural bounds of a fragment placed at `k`: states are numbered
/// consecutively and all edges stay inside the fragment or go to the dead
/// sentinel.
pub open spec fn frag_ok(s: Seq<SpecState>, k: int) -> bool {
    &&& forall|i: int| 0 <= i < s.len() ==> (#[trigger] s[i]).state_num == k + i
    &&& forall|i: int, j: int|
        0 <= i < s.len() && 0 <= j < (#[trigger] s[i].epsilon_transitions).len() ==> k
            <= #[trigger] s[i].epsilon_transitions[j] < k + s.len()
    &&& forall|i: int, j: int|
        0 <= i < s.len() && 0 <= j < (#[trigger] s[i].transitions).len() ==> (k
            <= #[trigger] s[i].transitions[j].1 < k + s.len() || s[i].transitions[j].1 == dead())
    &&& forall|i: int|
        0 <= i < s.len() ==> (k <= (#[trigger] s[i]).default_transition < k + s.len()
            || s[i].default_transition == dead())
}

/// A fragment has as many states as the tree's size, satisfies the
/// structural bounds, and ends in an accept state with no outgoing edges.
pub proof fn lemma_frag_props(n: SpecNode, k: int)
    ensures
        sp_frag(n, k).len() == sp_size(n),
        sp_size(n) >= 2,
        frag_ok(sp_frag(n, k), k),
        sp_frag(n, k)[sp_size(n) - 1] == mk_state(
            k + sp_size(n) - 1,
            Seq::empty(),
            Seq::empty(),
            dead(),
        ),
    decreases n,
{
    lemma_sp_size_pos(n);
    match n {
        SpecNode::Char(_) => {},
        SpecNode::Empty => {},
        SpecNode::NegChar(_) => {},
        SpecNode::Concat(a, b) => {
            lemma_frag_props(*a, k + 1);
            lemma_frag_props(*b, k + 1 + sp_size(*a));
        },
        SpecNode::Union(a, b) => {
            lemma_frag_props(*a, k + 1);
            lemma_frag_props(*b, k + 1 + sp_size(*a));
        },
        SpecNode::Repeat(a) => {
            lemma_frag_props(*a, k + 1);
        },
    }
}

/// Compile one syntax tree into a fragment appended to the automaton,
/// using `state_num` as the entry identifier; the result is the fragment's
/// accept identifier.
#[verifier::rlimit(100)]
#[verifier::spinoff_prover]
pub fn build_nfa_rec(root: Node, nfa: &mut NFA, state_num: usize) -> (r: usize)
    requires
        old(nfa)@.states.len() == state_num,
        state_num + sp_size(root@) <= usize::MAX,
    ensures
        final(nfa)@.states == old(nfa)@.states + sp_frag(root@, state_num as int),
        final(nfa)@.start == old(nfa)@.start,
        final(nfa)@.accept == old(nfa)@.accept,
        r as int == state_num + sp_size(root@) - 1,
    decreases root,
{
    proof {
        lemma_frag_props(root@, state_num as int);
    }
    match root {
        Node::Char(c) => {
            let start_state_num = state_num;
            let mut start = State::new(start_state_num);
            let accept_state_num = start_state_num + 1;
            let accept = State::new(accept_state_num);
            start.add_transition(c, accept_state_num);
            nfa.add_state(start);
            nfa.add_state(accept);
            proof {
                assert(nfa@.states =~= old(nfa)@.states + sp_frag(
                    Node::Char(c)@,
                    state_num as int,
                ));
            }
            accept_state_num
        },
        Node::Empty => {
            let start_state_num = state_num;
            let mut start = State::new(start_state_num);
            let accept_state_num = start_state_num + 1;
            let accept = State::new(accept_state_num);
            start.add_epsilon_transition(accept_state_num);
            nfa.add_state(start);
            nfa.add_state(accept);
            proof {
                assert(nfa@.states =~= old(nfa)@.states + sp_frag(
                    Node::Empty@,
                    state_num as int,
                ));
            }
            accept_state_num
        },
        Node::NegChar(set) => {
            let start_state_num = state_num;
            let mut start = State::new(start_state_num);
            let accept_state_num = start_state_num + 1;
            let accept = State::new(accept_state_num);
            let mut i: usize = 0;
            proof {
                assert(neg_transitions(set@.take(0)) =~= Seq::<(char, int)>::empty());
            }
            while i < set.len()
                invariant
                    i <= set@.len(),
                    start@ == mk_state(
                        start_state_num as int,
                        neg_transitions(set@.take(i as int)),
                        Seq::empty(),
                        dead(),
                    ),
                decreases set@.len() - i,
            {
                start.add_transition(set[i], DEAD_STATE);
                proof {
                    assert(neg_transitions(set@.take(i as int)).push((set@[i as int], dead()))
                        =~= neg_transitions(set@.take(i as int + 1)));
                }
                i = i + 1;
            }
            proof {
                assert(set@.take(set@.len() as int) =~= set@);
            }
            start.set_default_transition(accept_state_num);
            nfa.add_state(start);
            nfa.add_state(accept);
            proof {
                assert(nfa@.states =~= old(nfa)@.states + sp_frag(
                    root@,
                    state_num as int,
                ));
            }
            accept_state_num
        },
        Node::Concat((child1, child2)) => {
            let ghost a = (*child1)@;
            let ghost b = (*child2)@;
            let ghost k = state_num as int;
            let ghost pre = old(nfa)@.states;
            let ghost fa = sp_frag(a, k + 1);
            let ghost fb = sp_frag(b, k + 1 + sp_size(a));
            let ghost a_acc_i = k + sp_size(a);
            let ghost b_acc_i = a_acc_i + sp_size(b);
            proof {
                lemma_frag_props(a, k + 1);
                lemma_frag_props(b, a_acc_i + 1);
            }
            let new_start_num = state_num;
            let new_start = State::new(state_num);
            nfa.add_state(new_start);
            let child1_start_num = new_start_num + 1;
            let child1_accept_num = build_nfa_rec(*child1, nfa, child1_start_num);
            let child2_start_num = child1_accept_num + 1;
            let child2_accept_num = build_nfa_rec(*child2, nfa, child2_start_num);
            let new_accept_num = child2_accept_num + 1;
            let new_accept = State::new(new_accept_num);
            nfa.add_state(new_accept);
            let ghost base = nfa@.states;
            proof {
                assert(base =~= pre + seq![mk_state(k, Seq::empty(), Seq::empty(), dead())] + fa
                    + fb + seq![mk_state(b_acc_i + 1, Seq::empty(), Seq::empty(), dead())]);
            }
            nfa.add_epsilon_transition(new_start_num, child1_start_num);
            let ghost s1 = nfa@.states;
            proof {
                assert(Seq::<int>::empty().push(k + 1) =~= seq![k + 1]);
                assert(s1 =~= base.update(k, mk_state(k, Seq::empty(), seq![k + 1], dead())));
            }
            nfa.add_epsilon_transition(child1_accept_num, child2_start_num);
            let ghost s2 = nfa@.states;
            proof {
                assert(Seq::<int>::empty().push(a_acc_i + 1) =~= seq![a_acc_i + 1]);
                assert(s2 =~= s1.update(
                    a_acc_i,
                    mk_state(a_acc_i, Seq::empty(), seq![a_acc_i + 1], dead()),
                ));
            }
            nfa.add_epsilon_transition(child2_accept_num, new_accept_num);
            proof {
                assert(Seq::<int>::empty().push(b_acc_i + 1) =~= seq![b_acc_i + 1]);
                assert(nfa@.states =~= s2.update(
                    b_acc_i,
                    mk_state(b_acc_i, Seq::empty(), seq![b_acc_i + 1], dead()),
                ));
                assert(nfa@.states =~= pre + sp_frag(root@, k));
            }
            new_accept_num
        },
        Node::Union((child1, child2)) => {
            let ghost a = (*child1)@;
            let ghost b = (*child2)@;
            let ghost k = state_num as int;
            let ghost pre = old(nfa)@.states;
            let ghost fa = sp_frag(a, k + 1);
            let ghost fb = sp_frag(b, k + 1 + sp_size(a));
            let ghost a_acc_i = k + sp_size(a);
            let ghost b_acc_i = a_acc_i + sp_size(b);
            proof {
                lemma_frag_props(a, k + 1);
                lemma_frag_props(b, a_acc_i + 1);
            }
            let new_start_num = state_num;
            let new_start = State::new(state_num);
            nfa.add_state(new_start);
            let child1_start_num = new_start_num + 1;
            let child1_accept_num = build_nfa_rec(*child1, nfa, child1_start_num);
            let child2_start_num = child1_accept_num + 1;
            let child2_accept_num = build_nfa_rec(*child2, nfa, child2_start_num);
            let new_accept_num = child2_accept_num + 1;
            let new_accept = State::new(new_accept_num);
            nfa.add_state(new_accept);
            let ghost base = nfa@.states;
            proof {
                assert(base =~= pre + seq![mk_state(k, Seq::empty(), Seq::empty(), dead())] + fa
                    + fb + seq![mk_state(b_acc_i + 1, Seq::empty(), Seq::empty(), dead())]);
            }
            nfa.add_epsilon_transition(new_start_num, child1_start_num);
            let ghost s1 = nfa@.states;
            proof {
                assert(Seq::<int>::empty().push(k + 1) =~= seq![k + 1]);
                assert(s1 =~= base.update(k, mk_state(k, Seq::empty(), seq![k + 1], dead())));
            }
            nfa.add_epsilon_transition(new_start_num, child2_start_num);
            let ghost s2 = nfa@.states;
            proof {
                assert(seq![k + 1].push(a_acc_i + 1) =~= seq![k + 1, a_acc_i + 1]);
                assert(s2 =~= s1.update(
                    k,
                    mk_state(k, Seq::empty(), seq![k + 1, a_acc_i + 1], dead()),
                ));
            }
            nfa.add_epsilon_transition(child1_accept_num, new_accept_num);
            let ghost s3 = nfa@.states;
            proof {
                assert(Seq::<int>::empty().push(b_acc_i + 1) =~= seq![b_acc_i + 1]);
                assert(s3 =~= s2.update(
                    a_acc_i,
                    mk_state(a_acc_i, Seq::empty(), seq![b_acc_i + 1], dead()),
                ));
            }
            nfa.add_epsilon_transition(child2_accept_num, new_accept_num);
            proof {
                assert(Seq::<int>::empty().push(b_acc_i + 1) =~= seq![b_acc_i + 1]);
                assert(nfa@.states =~= s3.update(
                    b_acc_i,
                    mk_state(b_acc_i, Seq::empty(), seq![b_acc_i + 1], dead()),
                ));
                assert(nfa@.states =~= pre + sp_frag(root@, k));
            }
            new_accept_num
        },
        Node::Repeat(child) => {
            let ghost a = (*child)@;
            let ghost k = state_num as int;
            let ghost pre = old(nfa)@.states;
            let ghost fa = sp_frag(a, k + 1);
            let ghost a_acc_i = k + sp_size(a);
            proof {
                lemma_frag_props(a, k + 1);
            }
            let new_start_num = state_num;
            let new_start = State::new(state_num);
            nfa.add_state(new_start);
            let child_start_num = new_start_num + 1;
            let child_accept_num = build_nfa_rec(*child, nfa, child_start_num);
            let new_accept_num = child_accept_num + 1;
            let new_accept = State::new(new_accept_num);
            nfa.add_state(new_accept);
            let ghost base = nfa@.states;
            proof {
                assert(base =~= pre + seq![mk_state(k, Seq::empty(), Seq::empty(), dead())] + fa
                    + seq![mk_state(a_acc_i + 1, Seq::empty(), Seq::empty(), dead())]);
            }
            nfa.add_epsilon_transition(new_start_num, child_start_num);
            let ghost s1 = nfa@.states;
            proof {
                assert(Seq::<int>::empty().push(k + 1) =~= seq![k + 1]);
                assert(s1 =~= base.update(k, mk_state(k, Seq::empty(), seq![k + 1], dead())));
            }
            nfa.add_epsilon_transition(new_start_num, new_accept_num);
            let ghost s2 = nfa@.states;
            proof {
                assert(seq![k + 1].push(a_acc_i + 1) =~= seq![k + 1, a_acc_i + 1]);
                assert(s2 =~= s1.update(
                    k,
                    mk_state(k, Seq::empty(), seq![k + 1, a_acc_i + 1], dead()),
                ));
            }
            nfa.add_epsilon_transition(child_accept_num, child_start_num);
            let ghost s3 = nfa@.states;
            proof {
                assert(Seq::<int>::empty().push(k + 1) =~= seq![k + 1]);
                assert(s3 =~= s2.update(
                    a_acc_i,
                    mk_state(a_acc_i, Seq::empty(), seq![k + 1], dead()),
                ));
            }
            nfa.add_epsilon_transition(child_accept_num, new_start_num);
            proof {
                assert(seq![k + 1].push(k) =~= seq![k + 1, k]);
                assert(nfa@.states =~= s3.update(
                    a_acc_i,
                    mk_state(a_acc_i, Seq::empty(), seq![k + 1, k], dead()),
                ));
                assert(nfa@.states =~= pre + sp_frag(root@, k));
            }
            new_accept_num
        },
    }
}

/// Compile a syntax tree into a whole automaton: the tree's fragment with
/// start 0 and the fragment's accept recorded.
pub fn build_nfa(root: Node) -> (r: NFA)
    requires
        sp_size(root@) <= usize::MAX,
    ensures
        r@.states == sp_frag(root@, 0),
        r@.start == 0,
        r@.accept == sp_size(root@) - 1,
        nfa_wf(r@),
    decreases root,
{
    proof {
        lemma_frag_props(root@, 0);
    }
    let mut nfa = NFA::new();
    let state_num = nfa.get_start();
    let state_num = build_nfa_rec(root, &mut nfa, state_num);
    nfa.set_accept(state_num);
    proof {
        assert(nfa@.states =~= sp_frag(root@, 0));
    }
    nfa
}

/// The size a tree's fragment would have, or `None` when it does not fit
/// in a machine word.
pub fn node_size(root: &Node) -> (r: Option<usize>)
    ensures
        match r {
            Some(s) => s as int == sp_size(root@),
            None => sp_size(root@) > usize::MAX,
        },
    decreases root,
{
    proof {
        lemma_sp_size_pos(root@);
    }
    match root {
        Node::Char(_) => Some(2),
        Node::Empty => Some(2),
        Node::NegChar(_) => Some(2),
        Node::Concat((a, b)) => {
            proof {
                lemma_sp_size_pos((**a)@);
                lemma_sp_size_pos((**b)@);
            }
            let sa = match node_size(a) {
                Some(s) => s,
                None => {
                    return None;
                },
            };
            let sb = match node_size(b) {
                Some(s) => s,
                None => {
                    return None;
                },
            };
            let s1 = match sa.checked_add(sb) {
                Some(s) => s,
                None => {
                    return None;
                },
            };
            s1.checked_add(2)
        },
        Node::Union((a, b)) => {
            proof {
                lemma_sp_size_pos((**a)@);
                lemma_sp_size_pos((**b)@);
            }
            let sa = match node_size(a) {
                Some(s) => s,
                None => {
                    return None;
                },
            };
            let sb = match node_size(b) {
                Some(s) => s,
                None => {
                    return None;
                },
            };
            let s1 = match sa.checked_add(sb) {
                Some(s) => s,
                None => {
                    return None;
                },
            };
            s1.checked_add(2)
        },
        Node::Repeat(a) => {
            proof {
                lemma_sp_size_pos((**a)@);
            }
            let sa = match node_size(a) {
                Some(s) => s,
                None => {
                    return None;
                },
            };
            sa.checked_add(2)
        },
    }
}

} // verus!
