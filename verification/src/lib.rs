//! A small regular-expression engine over Unicode scalars.
//!
//! Patterns support concatenation, alternation `|`, Kleene star `*`,
//! grouping, character classes `[...]` with ranges, negated classes `[^...]`,
//! the wildcard `.`, and backslash escapes.  A compiled pattern is turned
//! into a Thompson NFA and then into a DFA by subset construction, either
//! eagerly at compile time or lazily while scanning.
//!
//! The searches are specified against the subset automaton of the compiled
//! NFA: a span of the input matches when running the automaton over exactly
//! that span ends in an accepting subset.  `find` returns the
//! leftmost-longest such span (except that a pattern matching the empty
//! string reports the empty span first), and `find_all` the non-overlapping
//! sequence of them.

use vstd::prelude::*;
use vstd::string::StringSliceAdditionalSpecFns;
use vstd::utf8::{encode_utf8, is_char_boundary};

pub mod canon;
pub mod dfa;
pub mod laws;
pub mod nfa;
pub mod parse;
pub mod scalars;
pub mod token;

use crate::dfa::{DFAExt, DFA, OnTheFlyDFA, drun, dstep, start_set, accepting, dead_set,
    lemma_dstep_dead};
use crate::nfa::{SpecNfa, nfa_wf, sp_frag, sp_size, build_nfa, node_size};
use crate::parse::{parse, spec_parse};
use crate::token::{tokenize, spec_tokenize};
use crate::scalars::{byte_of, scalars_of, offsets_of, slice_str, lemma_byte_of_boundary,
    lemma_byte_of_bounds, lemma_byte_of_mono, lemma_encode_slice,
    lemma_boundary_is_byte_of};

verus! {

/// The subset reached by running the automaton over the scalars of `s`
/// between positions `i` and `j`.
pub open spec fn run_span(nv: SpecNfa, s: Seq<char>, i: int, j: int) -> Set<int> {
    drun(nv, start_set(nv), s.subrange(i, j))
}

/// Whether the scalars of `s` between positions `i` and `j` match the
/// pattern, taken as a whole.
pub open spec fn span_match(nv: SpecNfa, s: Seq<char>, i: int, j: int) -> bool {
    0 <= i <= j <= s.len() && accepting(nv, run_span(nv, s, i, j))
}

/// Whether any span of `s` matches the pattern.
pub open spec fn has_match(nv: SpecNfa, s: Seq<char>) -> bool {
    exists|i: int, j: int| span_match(nv, s, i, j)
}

/// The largest end position no greater than `j` such that the span from
/// `i` to it matches, if any.
pub open spec fn sp_longest_at(nv: SpecNfa, s: Seq<char>, i: int, j: int) -> Option<int>
    decreases j - i + 1,
{
    if j < i {
        None
    } else if accepting(nv, run_span(nv, s, i, j)) {
        Some(j)
    } else {
        sp_longest_at(nv, s, i, j - 1)
    }
}

/// The first start position at or after `i` with a match, paired with its
/// largest end position.
pub open spec fn sp_search(nv: SpecNfa, s: Seq<char>, i: int) -> Option<(int, int)>
    decreases s.len() - i + 1,
{
    if i > s.len() {
        None
    } else {
        match sp_longest_at(nv, s, i, s.len() as int) {
            Some(j) => Some((i, j)),
            None => sp_search(nv, s, i + 1),
        }
    }
}

/// What a search from scalar position `from` returns: the empty span at
/// `from` when the pattern matches the empty string, otherwise the
/// leftmost-longest matching span starting at or after `from`.
pub open spec fn sp_find_at(nv: SpecNfa, s: Seq<char>, from: int) -> Option<(int, int)> {
    if from > s.len() {
        None
    } else if accepting(nv, start_set(nv)) {
        Some((from, from))
    } else {
        sp_search(nv, s, from)
    }
}

/// The non-overlapping spans a repeated search yields, starting at scalar
/// position `from`.  An empty span advances the cursor by one scalar.
pub open spec fn sp_find_all(nv: SpecNfa, s: Seq<char>, from: int) -> Seq<(int, int)>
    decreases s.len() + 2 - from,
{
    if from > s.len() || from < 0 {
        Seq::empty()
    } else {
        match sp_find_at(nv, s, from) {
            None => Seq::empty(),
            Some((i, j)) => {
                let nf = if j > from {
                    j
                } else {
                    from + 1
                };
                let nf2 = if nf > s.len() + 1 {
                    s.len() as int + 1
                } else {
                    nf
                };
                seq![(i, j)] + sp_find_all(nv, s, nf2)
            },
        }
    }
}

/// The automaton a pattern compiles to, or `None` when the pattern is
/// rejected: a lexing or grammar error, or a tree too large for machine
/// indices.
pub open spec fn spec_compiled(p: Seq<char>) -> Option<SpecNfa> {
    match spec_tokenize(p) {
        None => None,
        Some(ts) => match spec_parse(ts) {
            None => None,
            Some(ast) => if sp_size(ast) <= usize::MAX {
                Some(SpecNfa { states: sp_frag(ast, 0), start: 0, accept: sp_size(ast) - 1 })
            } else {
                None
            },
        },
    }
}

/// The dead subset is never accepting.
pub proof fn lemma_dead_not_accepting(nv: SpecNfa)
    requires
        nfa_wf(nv),
    ensures
        !accepting(nv, dead_set()),
{
    assert(nv.accept < nv.states.len() <= usize::MAX as int);
    assert(!dead_set().contains(nv.accept));
}

/// Extending a span by one scalar steps the automaton once.
pub proof fn lemma_run_extend(nv: SpecNfa, s: Seq<char>, i: int, j: int)
    requires
        0 <= i <= j < s.len(),
    ensures
        run_span(nv, s, i, j + 1) == dstep(nv, run_span(nv, s, i, j), s[j]),
{
    assert(s.subrange(i, j + 1).drop_last() =~= s.subrange(i, j));
    assert(s.subrange(i, j + 1).last() == s[j]);
    assert(s.subrange(i, j + 1).len() > 0);
}

/// Once a run has died, every longer run from the same start is dead too.
pub proof fn lemma_run_dead(nv: SpecNfa, s: Seq<char>, i: int, j: int, j2: int)
    requires
        nfa_wf(nv),
        0 <= i <= j <= j2 <= s.len(),
        run_span(nv, s, i, j) == dead_set(),
    ensures
        run_span(nv, s, i, j2) == dead_set(),
    decreases j2 - j,
{
    if j < j2 {
        lemma_run_extend(nv, s, i, j);
        lemma_dstep_dead(nv, s[j]);
        lemma_run_dead(nv, s, i, j + 1, j2);
    }
}

/// What `sp_longest_at` returns: the largest matching end position in
/// range, or nothing when no end position in range matches.
pub proof fn lemma_longest_char(nv: SpecNfa, s: Seq<char>, i: int, j: int)
    requires
        0 <= i <= s.len(),
        i - 1 <= j <= s.len(),
    ensures
        match sp_longest_at(nv, s, i, j) {
            Some(b) => i <= b <= j && accepting(nv, run_span(nv, s, i, b)) && forall|j2: int|
                b < j2 <= j ==> !accepting(nv, run_span(nv, s, i, j2)),
            None => forall|j2: int| i <= j2 <= j ==> !accepting(nv, run_span(nv, s, i, j2)),
        },
    decreases j - i + 1,
{
    if j >= i && !accepting(nv, run_span(nv, s, i, j)) {
        lemma_longest_char(nv, s, i, j - 1);
    }
}

/// What `sp_search` returns: the leftmost-longest matching span starting
/// at or after `i`, or nothing when no span from there matches.
pub proof fn lemma_search_char(nv: SpecNfa, s: Seq<char>, i: int)
    requires
        0 <= i,
    ensures
        match sp_search(nv, s, i) {
            Some(pair) => {
                &&& i <= pair.0 <= pair.1 <= s.len()
                &&& span_match(nv, s, pair.0, pair.1)
                &&& forall|i2: int, j2: int|
                    i <= i2 < pair.0 ==> !span_match(nv, s, i2, j2)
                &&& forall|j2: int| span_match(nv, s, pair.0, j2) ==> j2 <= pair.1
            },
            None => forall|i2: int, j2: int| i <= i2 ==> !span_match(nv, s, i2, j2),
        },
    decreases s.len() + 1 - i,
{
    if i > s.len() {
        assert forall|i2: int, j2: int| i <= i2 implies !span_match(nv, s, i2, j2) by {}
    } else {
        lemma_longest_char(nv, s, i, s.len() as int);
        match sp_longest_at(nv, s, i, s.len() as int) {
            Some(b) => {
                assert forall|j2: int| span_match(nv, s, i, j2) implies j2 <= b by {
                    if j2 > b {
                        assert(!accepting(nv, run_span(nv, s, i, j2)));
                    }
                }
            },
            None => {
                lemma_search_char(nv, s, i + 1);
                match sp_search(nv, s, i + 1) {
                    Some(pair) => {
                        assert forall|i2: int, j2: int| i <= i2 < pair.0 implies !span_match(
                            nv,
                            s,
                            i2,
                            j2,
                        ) by {
                            if i2 == i && span_match(nv, s, i2, j2) {
                                assert(!accepting(nv, run_span(nv, s, i, j2)));
                            }
                        }
                    },
                    None => {
                        assert forall|i2: int, j2: int| i <= i2 implies !span_match(
                            nv,
                            s,
                            i2,
                            j2,
                        ) by {
                            if i2 == i && span_match(nv, s, i2, j2) {
                                assert(!accepting(nv, run_span(nv, s, i, j2)));
                            }
                        }
                    },
                }
            },
        }
    }
}

/// One match: its byte offsets into the haystack and the matched text.
#[derive(PartialEq, Debug, Clone, Copy)]
pub struct Match<'a> {
    start: usize,
    end: usize,
    matched_str: &'a str,
}

/// The mathematical content of a match.
pub struct SpecMatch {
    pub start: int,
    pub end: int,
    pub text: Seq<char>,
}

impl<'a> View for Match<'a> {
    type V = SpecMatch;

    closed spec fn view(&self) -> SpecMatch {
        SpecMatch {
            start: self.start as int,
            end: self.end as int,
            text: self.matched_str@,
        }
    }
}

impl<'a> Match<'a> {
    /// The byte offset where the match begins.
    pub fn start(&self) -> (r: usize)
        ensures
            r as int == self@.start,
    {
        self.start
    }

    /// The byte offset just past the match.
    pub fn end(&self) -> (r: usize)
        ensures
            r as int == self@.end,
    {
        self.end
    }

    /// The byte length of the matched text.
    pub fn len(&self) -> (r: usize)
        requires
            self@.start <= self@.end,
        ensures
            r as int == self@.end - self@.start,
    {
        self.end - self.start
    }

    /// Whether the match is empty.
    pub fn is_empty(&self) -> (r: bool)
        ensures
            r == (self@.start == self@.end),
    {
        self.start == self.end
    }

    /// The matched text.
    pub fn as_str(&self) -> (r: &'a str)
        ensures
            r@ == self@.text,
    {
        self.matched_str
    }

    /// The byte range of the match.
    pub fn range(&self) -> (r: core::ops::Range<usize>)
        ensures
            r.start as int == self@.start,
            r.end as int == self@.end,
    {
        self.start..self.end
    }
}

/// Whether a match value reports the given span of the haystack.
pub open spec fn match_corresponds(s: Seq<char>, m: SpecMatch, sp: (int, int)) -> bool {
    &&& m.start == byte_of(s, sp.0)
    &&& m.end == byte_of(s, sp.1)
    &&& m.text == s.subrange(sp.0, sp.1)
    &&& is_char_boundary(encode_utf8(s), m.start)
    &&& is_char_boundary(encode_utf8(s), m.end)
    &&& encode_utf8(m.text) == encode_utf8(s).subrange(m.start, m.end)
}

/// The matches of one search over a string, walked front to back.
#[derive(Clone)]
pub struct Matches<'a> {
    matches: Vec<Match<'a>>,
    idx: usize,
}

/// The mathematical content of a match walk.
pub struct SpecMatches {
    pub matches: Seq<SpecMatch>,
    pub idx: int,
}

impl<'a> View for Matches<'a> {
    type V = SpecMatches;

    closed spec fn view(&self) -> SpecMatches {
        SpecMatches {
            matches: self.matches@.map_values(|m: Match<'a>| m@),
            idx: self.idx as int,
        }
    }
}

impl<'a> Matches<'a> {
    /// Wrap a list of matches for walking.
    fn new(matches: Vec<Match<'a>>) -> (r: Matches<'a>)
        ensures
            r@.matches == matches@.map_values(|m: Match<'a>| m@),
            r@.idx == 0,
    {
        Matches { matches, idx: 0 }
    }

    /// The next match, front to back, or `None` once all are spent.
    pub fn next(&mut self) -> (r: Option<Match<'a>>)
        ensures
            final(self)@.matches == old(self)@.matches,
            match r {
                Some(m) => old(self)@.idx < old(self)@.matches.len() && m@
                    == old(self)@.matches[old(self)@.idx] && final(self)@.idx == old(self)@.idx
                    + 1,
                None => old(self)@.idx >= old(self)@.matches.len() && final(self)@.idx
                    == old(self)@.idx,
            },
    {
        if self.idx < self.matches.len() {
            let m = self.matches[self.idx];
            self.idx = self.idx + 1;
            Some(m)
        } else {
            None
        }
    }
}

/// Search for the leftmost-longest span matching the automaton, starting
/// at scalar position `from`; the result is a pair of scalar positions.
fn find_span<T: DFAExt>(dfa: &mut T, chars: &Vec<char>, from: usize) -> (r: Option<
    (usize, usize),
>)
    requires
        old(dfa).wf(),
    ensures
        final(dfa).wf(),
        final(dfa).nfa_view() == old(dfa).nfa_view(),
        match r {
            Some(p) => p.0 <= p.1 <= chars@.len() && from <= p.0 && sp_find_at(
                old(dfa).nfa_view(),
                chars@,
                from as int,
            ) == Some((p.0 as int, p.1 as int)),
            None => sp_find_at(old(dfa).nfa_view(), chars@, from as int) is None,
        },
{
    let ghost nv = dfa.nfa_view();
    proof {
        dfa.lemma_wf_nfa();
        dfa.lemma_dead_subset();
    }
    let n = chars.len();
    if from > n {
        return None;
    }
    let st0 = dfa.get_start();
    if dfa.is_accept(st0) {
        return Some((from, from));
    }
    let mut i = from;
    while i < n
        invariant
            dfa.wf(),
            dfa.nfa_view() == nv,
            nv == old(dfa).nfa_view(),
            nfa_wf(nv),
            n == chars@.len(),
            from <= i <= n,
            !accepting(nv, start_set(nv)),
            sp_search(nv, chars@, from as int) == sp_search(nv, chars@, i as int),
        decreases n - i,
    {
        let mut state = dfa.get_start();
        let mut j = i;
        let mut best: Option<usize> = None;
        proof {
            assert(chars@.subrange(i as int, i as int) =~= Seq::<char>::empty());
        }
        while j < n
            invariant
                dfa.wf(),
                dfa.nfa_view() == nv,
                nv == old(dfa).nfa_view(),
                nfa_wf(nv),
                n == chars@.len(),
                from <= i < n,
                i <= j <= n,
                dfa.assigned(state),
                dfa.subset_of(state) == run_span(nv, chars@, i as int, j as int),
                !accepting(nv, start_set(nv)),
                match best {
                    Some(b) => i < b <= j && accepting(nv, run_span(nv, chars@, i as int, b as int))
                        && forall|j2: int|
                        b < j2 <= j ==> !accepting(nv, run_span(nv, chars@, i as int, j2)),
                    None => forall|j2: int|
                        i <= j2 <= j ==> !accepting(nv, run_span(nv, chars@, i as int, j2)),
                },
            ensures
                dfa.wf(),
                dfa.nfa_view() == nv,
                match best {
                    Some(b) => i < b <= n && accepting(nv, run_span(nv, chars@, i as int, b as int))
                        && forall|j2: int|
                        b < j2 <= n ==> !accepting(nv, run_span(nv, chars@, i as int, j2)),
                    None => forall|j2: int|
                        i <= j2 <= n ==> !accepting(nv, run_span(nv, chars@, i as int, j2)),
                },
            decreases n - j,
        {
            let c = chars[j];
            proof {
                lemma_run_extend(nv, chars@, i as int, j as int);
            }
            state = dfa.transition(c, state);
            j = j + 1;
            if dfa.is_accept(state) {
                proof {
                    assert forall|j2: int|
                        j < j2 <= j implies !accepting(nv, run_span(nv, chars@, i as int, j2)) by {}
                }
                best = Some(j);
            } else if dfa.is_dead(state) {
                proof {
                    dfa.lemma_dead_subset();
                    assert(dfa.subset_of(state) == dead_set());
                    assert(run_span(nv, chars@, i as int, j as int) == dead_set());
                    assert forall|j2: int|
                        j <= j2 <= n implies !accepting(
                        nv,
                        run_span(nv, chars@, i as int, j2),
                    ) by {
                        lemma_run_dead(nv, chars@, i as int, j as int, j2);
                        lemma_dead_not_accepting(nv);
                    }
                }
                break ;
            }
        }
        proof {
            lemma_longest_char(nv, chars@, i as int, n as int);
        }
        match best {
            Some(b) => {
                proof {
                    match sp_longest_at(nv, chars@, i as int, n as int) {
                        Some(bb) => {
                            if bb > b as int {
                                assert(!accepting(nv, run_span(nv, chars@, i as int, bb)));
                            }
                            if bb < b as int {
                                assert(!accepting(nv, run_span(nv, chars@, i as int, b as int)));
                            }
                            assert(bb == b as int);
                        },
                        None => {
                            assert(!accepting(nv, run_span(nv, chars@, i as int, b as int)));
                        },
                    }
                    assert(sp_search(nv, chars@, i as int) == Some((i as int, b as int)));
                }
                return Some((i, b));
            },
            None => {
                proof {
                    match sp_longest_at(nv, chars@, i as int, n as int) {
                        Some(bb) => {
                            assert(!accepting(nv, run_span(nv, chars@, i as int, bb)));
                        },
                        None => {},
                    }
                    assert(sp_search(nv, chars@, i as int) == sp_search(
                        nv,
                        chars@,
                        i as int + 1,
                    ));
                }
                i = i + 1;
            },
        }
    }
    proof {
        assert(chars@.subrange(n as int, n as int) =~= Seq::<char>::empty());
        assert(run_span(nv, chars@, n as int, n as int) == start_set(nv));
        assert(sp_longest_at(nv, chars@, n as int, n as int) == sp_longest_at(
            nv,
            chars@,
            n as int,
            n as int - 1,
        ));
        assert(sp_longest_at(nv, chars@, n as int, n as int - 1) is None);
        assert(sp_search(nv, chars@, n as int) == sp_search(nv, chars@, n as int + 1));
        assert(sp_search(nv, chars@, n as int + 1) is None);
    }
    None
}

/// Build the match value for a span of scalar positions.
fn make_match<'a>(s: &'a str, offs: &Vec<usize>, ci: usize, cj: usize) -> (m: Match<'a>)
    requires
        ci <= cj <= s@.len(),
        offs@.len() == s@.len() + 1,
        forall|k: int| 0 <= k <= s@.len() ==> (#[trigger] offs@[k]) as int == byte_of(s@, k),
    ensures
        m@ == (SpecMatch {
            start: byte_of(s@, ci as int),
            end: byte_of(s@, cj as int),
            text: s@.subrange(ci as int, cj as int),
        }),
        match_corresponds(s@, m@, (ci as int, cj as int)),
{
    let bstart = offs[ci];
    let bend = offs[cj];
    proof {
        broadcast use vstd::utf8::encode_utf8_valid_utf8, vstd::utf8::encode_utf8_decode_utf8;

        lemma_byte_of_boundary(s@, ci as int);
        lemma_byte_of_boundary(s@, cj as int);
        lemma_byte_of_mono(s@, ci as int, cj as int);
        lemma_byte_of_bounds(s@, cj as int);
    }
    let sub = slice_str(s, bstart, bend);
    proof {
        lemma_encode_slice(s@, ci as int, cj as int);
        assert(sub.spec_bytes() == encode_utf8(s@.subrange(ci as int, cj as int)));
        assert(encode_utf8(sub@) == encode_utf8(s@.subrange(ci as int, cj as int)));
        assert(vstd::utf8::decode_utf8(encode_utf8(sub@)) == sub@);
        assert(vstd::utf8::decode_utf8(encode_utf8(s@.subrange(ci as int, cj as int)))
            == s@.subrange(ci as int, cj as int));
        assert(sub@ == s@.subrange(ci as int, cj as int));
    }
    Match { start: bstart, end: bend, matched_str: sub }
}

/// A compiled pattern, generic over the DFA variant that backs it.
pub struct TinyRegexInner<T: DFAExt> {
    dfa: T,
}

/// A compiled pattern backed by the eagerly built DFA.
pub type TinyRegex = TinyRegexInner<DFA>;

impl<T: DFAExt> TinyRegexInner<T> {
    /// The backing DFA's internal invariant.
    pub closed spec fn wf(&self) -> bool {
        self.dfa.wf()
    }

    /// The automaton the pattern compiled to; every search is specified
    /// against its subset-automaton language.
    pub closed spec fn nfa_view(&self) -> SpecNfa {
        self.dfa.nfa_view()
    }

    /// Compile a pattern.
    ///
    /// Fails exactly when the pattern is rejected: a bad escape, a
    /// grammar error, or a syntax tree too large for machine indices.
    pub fn new(regex: &str) -> (r: Result<TinyRegexInner<T>, String>)
        ensures
            match r {
                Ok(re) => re.wf() && Some(re.nfa_view()) == spec_compiled(regex@),
                Err(_) => spec_compiled(regex@) is None,
            },
    {
        let owned = regex.to_owned();
        let mut tokens = match tokenize(&owned) {
            Ok(t) => t,
            Err(e) => {
                return Err(e);
            },
        };
        let root = match parse(&mut tokens) {
            Ok(root) => root,
            Err(e) => {
                return Err(e);
            },
        };
        match node_size(&root) {
            Some(_) => {},
            None => {
                return Err("Parse Error: the pattern is too large".to_owned());
            },
        }
        let nfa = build_nfa(root);
        let dfa = T::new(nfa);
        Ok(TinyRegexInner { dfa })
    }

    /// Whether any span of the input matches the pattern.
    pub fn is_match(&mut self, s: &str) -> (r: bool)
        requires
            old(self).wf(),
        ensures
            final(self).wf(),
            final(self).nfa_view() == old(self).nfa_view(),
            r == has_match(old(self).nfa_view(), s@),
    {
        let ghost nv = self.nfa_view();
        let chars = scalars_of(s);
        let r = find_span(&mut self.dfa, &chars, 0);
        proof {
            lemma_search_char(nv, s@, 0);
            match r {
                Some(p) => {
                    if accepting(nv, start_set(nv)) {
                        assert(s@.subrange(0, 0) =~= Seq::<char>::empty());
                        assert(span_match(nv, s@, 0, 0));
                    } else {
                        assert(span_match(nv, s@, p.0 as int, p.1 as int));
                    }
                },
                None => {
                    assert(!accepting(nv, start_set(nv)));
                    assert forall|i: int, j: int| !span_match(nv, s@, i, j) by {
                        if 0 <= i {
                            assert(!span_match(nv, s@, i, j));
                        }
                    }
                },
            }
        }
        r.is_some()
    }

    /// The leftmost-longest matching span, as byte offsets and matched
    /// text; the empty match at offset 0 when the pattern matches the
    /// empty string; `None` when nothing matches.
    pub fn find<'a>(&mut self, s: &'a str) -> (r: Option<Match<'a>>)
        requires
            old(self).wf(),
        ensures
            final(self).wf(),
            final(self).nfa_view() == old(self).nfa_view(),
            match r {
                Some(m) => sp_find_at(old(self).nfa_view(), s@, 0) matches Some(p)
                    && match_corresponds(s@, m@, p),
                None => sp_find_at(old(self).nfa_view(), s@, 0) is None,
            },
    {
        let chars = scalars_of(s);
        let offs = offsets_of(s);
        match find_span(&mut self.dfa, &chars, 0) {
            Some((ci, cj)) => {
                let m = make_match(s, &offs, ci, cj);
                proof {
                    assert(sp_find_at(old(self).nfa_view(), s@, 0) == Some(
                        (ci as int, cj as int),
                    ));
                    assert(match_corresponds(s@, m@, (ci as int, cj as int)));
                }
                Some(m)
            },
            None => None,
        }
    }

    /// Like `find`, restricted to matches beginning at or after byte
    /// offset `start`; offsets in the result stay absolute.  An offset
    /// past the end of the input gives `None`.
    pub fn find_at<'a>(&mut self, s: &'a str, start: usize) -> (r: Option<Match<'a>>)
        requires
            old(self).wf(),
            is_char_boundary(s.spec_bytes(), start as int) || (start as int
                > s.spec_bytes().len()),
        ensures
            final(self).wf(),
            final(self).nfa_view() == old(self).nfa_view(),
            match r {
                Some(m) => exists|cf: int|
                    0 <= cf <= s@.len() && #[trigger] byte_of(s@, cf) == start && (sp_find_at(
                        old(self).nfa_view(),
                        s@,
                        cf,
                    ) matches Some(p) && match_corresponds(s@, m@, p)),
                None => (start as int > s.spec_bytes().len()) || exists|cf: int|
                    0 <= cf <= s@.len() && #[trigger] byte_of(s@, cf) == start && sp_find_at(
                        old(self).nfa_view(),
                        s@,
                        cf,
                    ) is None,
            },
    {
        let blen = s.as_bytes().len();
        if start > blen {
            return None;
        }
        let chars = scalars_of(s);
        let offs = offsets_of(s);
        proof {
            lemma_boundary_is_byte_of(s@, start as int);
        }
        let mut cf: usize = 0;
        while cf < offs.len() && offs[cf] != start
            invariant
                offs@.len() == s@.len() + 1,
                forall|k: int| 0 <= k <= s@.len() ==> (#[trigger] offs@[k]) as int == byte_of(
                    s@,
                    k,
                ),
                cf <= offs@.len(),
                forall|k: int| 0 <= k < cf ==> (#[trigger] offs@[k]) != start,
                exists|k: int| 0 <= k <= s@.len() && #[trigger] byte_of(s@, k) == start,
            decreases offs@.len() - cf,
        {
            cf = cf + 1;
        }
        proof {
            let k0 = choose|k: int| 0 <= k <= s@.len() && #[trigger] byte_of(s@, k) == start;
            assert(offs@[k0] == start);
            assert(cf as int <= k0);
            assert(cf < offs@.len());
            assert(offs@[cf as int] == start);
        }
        match find_span(&mut self.dfa, &chars, cf) {
            Some((ci, cj)) => {
                let m = make_match(s, &offs, ci, cj);
                proof {
                    assert(byte_of(s@, cf as int) == start);
                    assert(sp_find_at(old(self).nfa_view(), s@, cf as int) == Some(
                        (ci as int, cj as int),
                    ));
                    assert(match_corresponds(s@, m@, (ci as int, cj as int)));
                }
                Some(m)
            },
            None => {
                proof {
                    assert(byte_of(s@, cf as int) == start);
                }
                None
            },
        }
    }

    /// All non-overlapping matches, leftmost-longest first; after an
    /// empty match the search resumes one scalar further on.
    pub fn find_all<'a>(&mut self, s: &'a str) -> (r: Matches<'a>)
        requires
            old(self).wf(),
        ensures
            final(self).wf(),
            final(self).nfa_view() == old(self).nfa_view(),
            r@.idx == 0,
            r@.matches.len() == sp_find_all(old(self).nfa_view(), s@, 0).len(),
            forall|k: int|
                0 <= k < r@.matches.len() ==> match_corresponds(
                    s@,
                    #[trigger] r@.matches[k],
                    sp_find_all(old(self).nfa_view(), s@, 0)[k],
                ),
    {
        let ghost nv = self.nfa_view();
        let chars = scalars_of(s);
        let offs = offsets_of(s);
        let mut out: Vec<Match<'a>> = Vec::new();
        let mut cursor: usize = 0;
        let ghost whole = sp_find_all(nv, s@, 0);
        proof {
            assert(out@.map_values(|m: Match<'a>| m@) =~= Seq::<SpecMatch>::empty());
        }
        loop
            invariant_except_break
                out@.map_values(|m: Match<'a>| m@).len() + sp_find_all(
                    nv,
                    s@,
                    cursor as int,
                ).len() == whole.len(),
                forall|k: int|
                    0 <= k < sp_find_all(nv, s@, cursor as int).len() ==> #[trigger] sp_find_all(
                        nv,
                        s@,
                        cursor as int,
                    )[k] == whole[out@.len() + k],
            invariant
                self.wf(),
                self.nfa_view() == nv,
                nv == old(self).nfa_view(),
                chars@ == s@,
                offs@.len() == s@.len() + 1,
                forall|k: int| 0 <= k <= s@.len() ==> (#[trigger] offs@[k]) as int == byte_of(
                    s@,
                    k,
                ),
                whole == sp_find_all(nv, s@, 0),
                forall|k: int|
                    0 <= k < out@.len() ==> match_corresponds(
                        s@,
                        (#[trigger] out@[k])@,
                        whole[k],
                    ),
            ensures
                self.wf(),
                self.nfa_view() == nv,
                out@.map_values(|m: Match<'a>| m@).len() == whole.len(),
                forall|k: int|
                    0 <= k < out@.len() ==> match_corresponds(
                        s@,
                        (#[trigger] out@[k])@,
                        whole[k],
                    ),
            decreases s@.len() + 2 - cursor,
        {
            let next = find_span(&mut self.dfa, &chars, cursor);
            match next {
                Some((ci, cj)) => {
                    let m = make_match(s, &offs, ci, cj);
                    let ghost pre_out = out@;
                    out.push(m);
                    proof {
                        let tail = sp_find_all(nv, s@, cursor as int);
                        assert(cursor as int <= s@.len());
                        assert(tail[0] == (ci as int, cj as int));
                        assert(out@.map_values(|m2: Match<'a>| m2@) =~= pre_out.map_values(
                            |m2: Match<'a>| m2@,
                        ).push(m@));
                        assert(whole[pre_out.len() as int] == (ci as int, cj as int));
                        assert(match_corresponds(s@, m@, whole[pre_out.len() as int]));
                    }
                    let next_cursor_opt = if cj > cursor {
                        Some(cj)
                    } else {
                        cursor.checked_add(1)
                    };
                    match next_cursor_opt {
                        Some(nc) => {
                            proof {
                                let tail = sp_find_all(nv, s@, cursor as int);
                                assert(tail == seq![(ci as int, cj as int)] + sp_find_all(
                                    nv,
                                    s@,
                                    nc as int,
                                ));
                                assert(tail.drop_first() =~= sp_find_all(nv, s@, nc as int));
                                assert forall|k: int|
                                    0 <= k < sp_find_all(nv, s@, nc as int).len() implies
                                    #[trigger] sp_find_all(nv, s@, nc as int)[k] == whole[out@.len()
                                    + k] by {
                                    assert(sp_find_all(nv, s@, nc as int)[k]
                                        == tail.drop_first()[k]);
                                    assert(tail.drop_first()[k] == tail[k + 1]);
                                }
                            }
                            cursor = nc;
                        },
                        None => {
                            proof {
                                // The cursor reached the machine maximum:
                                // the spec cursor leaves the string, so the
                                // remaining spans are none.
                                let tail = sp_find_all(nv, s@, cursor as int);
                                assert(cursor == usize::MAX && cj == cursor);
                                assert(chars.len() == chars@.len());
                                assert(cursor as int <= s@.len());
                                assert(s@.len() == usize::MAX as int);
                                assert(tail == seq![(ci as int, cj as int)] + sp_find_all(
                                    nv,
                                    s@,
                                    s@.len() as int + 1,
                                ));
                                assert(sp_find_all(nv, s@, s@.len() as int + 1) =~= Seq::<
                                    (int, int),
                                >::empty());
                                assert(tail.len() == 1);
                                assert(out@.map_values(|m2: Match<'a>| m2@).len()
                                    == whole.len());
                            }
                            break ;
                        },
                    }
                },
                None => {
                    proof {
                        assert(sp_find_all(nv, s@, cursor as int) =~= Seq::<(int, int)>::empty());
                    }
                    break ;
                },
            }
        }
        let r = Matches::new(out);
        r
    }
}

} // verus!
