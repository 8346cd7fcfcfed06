//! The engine's laws: properties relating the public operations, proved
//! once and for all over the specification functions that the operations'
//! own contracts speak of.

use vstd::prelude::*;
use crate::dfa::{accepting, start_set};
use crate::nfa::SpecNfa;
use crate::parse::{lang, SpecNode};
use crate::{
    has_match, sp_find_all, sp_find_at, sp_search, sp_longest_at, span_match, spec_compiled,
    lemma_search_char, lemma_longest_char, run_span,
};

verus! {

/// Compiling a pattern is deterministic: two automata compiled from the
/// same pattern search identically, so every match, search and scan over
/// them agrees.
pub proof fn lemma_compile_deterministic(p: Seq<char>, nv1: SpecNfa, nv2: SpecNfa)
    requires
        Some(nv1) == spec_compiled(p),
        Some(nv2) == spec_compiled(p),
    ensures
        forall|s: Seq<char>| has_match(nv1, s) == has_match(nv2, s),
        forall|s: Seq<char>, from: int| sp_find_at(nv1, s, from) == sp_find_at(nv2, s, from),
        forall|s: Seq<char>, from: int| sp_find_all(nv1, s, from) == sp_find_all(nv2, s, from),
{
    assert(nv1 == nv2);
}

/// The match predicate agrees with the search: some span of the input
/// matches the pattern exactly when a search from some position returns a
/// span ending there whose text matches the pattern as a whole.
pub proof fn lemma_match_language(nv: SpecNfa, s: Seq<char>)
    ensures
        has_match(nv, s) <==> exists|i: int, j: int|
            0 <= i <= j <= s.len() && (sp_find_at(nv, s, i) matches Some(p) && p.1 == j)
                && #[trigger] span_match(nv, s, i, j),
{
    if has_match(nv, s) {
        if accepting(nv, start_set(nv)) {
            assert(s.subrange(0, 0) =~= Seq::<char>::empty());
            assert(span_match(nv, s, 0, 0));
            assert(sp_find_at(nv, s, 0) == Some((0int, 0int)));
            assert(0 <= 0 <= 0 <= s.len() && (sp_find_at(nv, s, 0) matches Some(p) && p.1 == 0)
                && span_match(nv, s, 0, 0));
        } else {
            lemma_search_char(nv, s, 0);
            match sp_search(nv, s, 0) {
                Some(pair) => {
                    let (i0, j0) = pair;
                    lemma_longest_char(nv, s, i0, s.len() as int);
                    match sp_longest_at(nv, s, i0, s.len() as int) {
                        Some(b) => {
                            assert(span_match(nv, s, i0, b));
                            assert(b <= j0);
                            if b < j0 {
                                assert(!accepting(nv, run_span(nv, s, i0, j0)));
                            }
                            assert(b == j0);
                            assert(sp_search(nv, s, i0) == Some((i0, j0)));
                            assert(sp_find_at(nv, s, i0) == Some((i0, j0)));
                            assert(0 <= i0 <= j0 <= s.len() && (sp_find_at(nv, s, i0)
                                matches Some(p) && p.1 == j0) && span_match(nv, s, i0, j0));
                        },
                        None => {
                            assert(!accepting(nv, run_span(nv, s, i0, j0)));
                        },
                    }
                },
                None => {
                    let (i0, j0) = choose|i: int, j: int| span_match(nv, s, i, j);
                    assert(!span_match(nv, s, i0, j0));
                },
            }
        }
    }
}

/// A search from the start of the input returns the leftmost-longest
/// matching span, for every pattern that does not match the empty string.
/// (A pattern that does match the empty string reports the empty span at
/// the start instead, which need not be the longest there.)
pub proof fn lemma_find_leftmost_longest(nv: SpecNfa, s: Seq<char>, i: int, j: int)
    requires
        !accepting(nv, start_set(nv)),
        sp_find_at(nv, s, 0) == Some((i, j)),
    ensures
        span_match(nv, s, i, j),
        forall|i2: int, j2: int| i2 < i ==> !span_match(nv, s, i2, j2),
        forall|j2: int| span_match(nv, s, i, j2) ==> j2 <= j,
{
    lemma_search_char(nv, s, 0);
    assert forall|i2: int, j2: int| i2 < i implies !span_match(nv, s, i2, j2) by {
        if 0 <= i2 {
            assert(!span_match(nv, s, i2, j2));
        }
    }
}

/// Every span a scan yields starts at or after the scan position, lies
/// within the input, and matches.
proof fn lemma_find_all_elems(nv: SpecNfa, s: Seq<char>, from: int)
    requires
        0 <= from,
    ensures
        forall|k: int|
            0 <= k < sp_find_all(nv, s, from).len() ==> {
                let sp = #[trigger] sp_find_all(nv, s, from)[k];
                from <= sp.0 <= sp.1 <= s.len()
            },
    decreases s.len() + 2 - from,
{
    if from <= s.len() {
        match sp_find_at(nv, s, from) {
            None => {},
            Some((i, j)) => {
                proof_find_at_bounds(nv, s, from, i, j);
                let nf = if j > from {
                    j
                } else {
                    from + 1
                };
                let nf2 = if nf > s.len() + 1 {
                    s.len() as int + 1
                } else {
                    nf
                };
                lemma_find_all_elems(nv, s, nf2);
                assert forall|k: int|
                    0 <= k < sp_find_all(nv, s, from).len() implies {
                    let sp = #[trigger] sp_find_all(nv, s, from)[k];
                    from <= sp.0 <= sp.1 <= s.len()
                } by {
                    if k > 0 {
                        assert(sp_find_all(nv, s, from)[k] == sp_find_all(nv, s, nf2)[k - 1]);
                    }
                }
            },
        }
    }
}

/// A successful search returns a span of the input starting at or after
/// the search position.
proof fn proof_find_at_bounds(nv: SpecNfa, s: Seq<char>, from: int, i: int, j: int)
    requires
        0 <= from,
        sp_find_at(nv, s, from) == Some((i, j)),
    ensures
        from <= i <= j <= s.len(),
{
    if !accepting(nv, start_set(nv)) {
        lemma_search_char(nv, s, from);
    }
}

/// Scanning yields non-overlapping spans in order, and at most one more
/// span than the input has scalars: each match starts no earlier than the
/// previous one ended, and the scan always terminates.
pub proof fn lemma_find_all_progress(nv: SpecNfa, s: Seq<char>, from: int)
    requires
        0 <= from <= s.len() + 1,
    ensures
        sp_find_all(nv, s, from).len() <= s.len() + 1 - from,
        forall|k: int|
            0 <= k < sp_find_all(nv, s, from).len() - 1 ==> (#[trigger] sp_find_all(
                nv,
                s,
                from,
            )[k + 1]).0 >= sp_find_all(nv, s, from)[k].1,
    decreases s.len() + 2 - from,
{
    lemma_find_all_elems(nv, s, from);
    if from <= s.len() {
        match sp_find_at(nv, s, from) {
            None => {},
            Some((i, j)) => {
                proof_find_at_bounds(nv, s, from, i, j);
                let nf = if j > from {
                    j
                } else {
                    from + 1
                };
                let nf2 = if nf > s.len() + 1 {
                    s.len() as int + 1
                } else {
                    nf
                };
                lemma_find_all_progress(nv, s, nf2);
                lemma_find_all_elems(nv, s, nf2);
                let whole = sp_find_all(nv, s, from);
                let rest = sp_find_all(nv, s, nf2);
                assert(whole == seq![(i, j)] + rest);
                assert forall|k: int| 0 <= k < whole.len() - 1 implies (#[trigger] whole[k
                    + 1]).0 >= whole[k].1 by {
                    if k == 0 {
                        assert(whole[1] == rest[0]);
                        assert(rest[0].0 >= nf2);
                        assert(nf2 >= j);
                        assert(whole[0] == (i, j));
                    } else {
                        assert(whole[k] == rest[k - 1]);
                        assert(whole[k + 1] == rest[k]);
                        assert((rest[k - 1 + 1]).0 >= rest[k - 1].1);
                    }
                }
            },
        }
    }
}

/// The scalar set of an alternation tree whose leaves are all single
/// scalars, if the tree has that shape.
pub open spec fn union_tree_chars(n: SpecNode) -> Option<Set<char>>
    decreases n,
{
    match n {
        SpecNode::Char(c) => Some(set![c]),
        SpecNode::Union(a, b) => match (union_tree_chars(*a), union_tree_chars(*b)) {
            (Some(ca), Some(cb)) => Some(ca.union(cb)),
            _ => None,
        },
        _ => None,
    }
}

/// An alternation tree over single scalars matches exactly the
/// one-scalar strings drawn from its scalar set, whatever its shape.
pub proof fn lemma_union_tree_lang(n: SpecNode, s: Seq<char>)
    requires
        union_tree_chars(n) is Some,
    ensures
        lang(n, s) <==> (s.len() == 1 && union_tree_chars(n).unwrap().contains(s[0])),
    decreases n,
{
    match n {
        SpecNode::Char(c) => {
            if s.len() == 1 && s[0] == c {
                assert(s =~= seq![c]);
            }
        },
        SpecNode::Union(a, b) => {
            lemma_union_tree_lang(*a, s);
            lemma_union_tree_lang(*b, s);
        },
        _ => {},
    }
}

/// A character class and an alternation enumerating the same scalar set
/// match the same language: both accept exactly the one-scalar strings
/// from the set.  The class expands to a balanced alternation tree and an
/// enumeration to a right-leaning one; by the previous lemma the shape
/// does not matter.
pub proof fn lemma_class_alternation_equiv(n1: SpecNode, n2: SpecNode, s: Seq<char>)
    requires
        union_tree_chars(n1) is Some,
        union_tree_chars(n2) is Some,
        union_tree_chars(n1) == union_tree_chars(n2),
    ensures
        lang(n1, s) == lang(n2, s),
{
    lemma_union_tree_lang(n1, s);
    lemma_union_tree_lang(n2, s);
}

/// The balanced tree built for a scalar range is an alternation tree over
/// exactly the scalars of the range.
pub proof fn lemma_btree_chars(l: u32, h: u32)
    requires
        vstd::utf8::is_scalar(l),
        vstd::utf8::is_scalar(h),
        l <= h,
    ensures
        union_tree_chars(crate::parse::sp_union_btree(l, h)) is Some,
        forall|c: char|
            union_tree_chars(crate::parse::sp_union_btree(l, h)).unwrap().contains(c) <==> (l <= (
            c as u32) <= h),
    decreases h - l,
{
    let n = crate::parse::sp_union_btree(l, h);
    if h <= l {
        assert(n == SpecNode::Char(l as char));
        assert(union_tree_chars(n) == Some(set![l as char]));
        assert forall|c: char|
            union_tree_chars(n).unwrap().contains(c) <==> (l <= (c as u32) <= h) by {
            vstd::utf8::char_u32_cast(c, c as u32);
            if union_tree_chars(n).unwrap().contains(c) {
                assert(c == l as char);
                assert((l as char) as u32 == l) by {
                    assert(vstd::utf8::is_scalar(l));
                }
            }
            if l <= (c as u32) <= h {
                assert(c as u32 == l);
                assert((c as u32) as char == c);
            }
        }
    } else if h == l + 1 {
        assert(n == SpecNode::Union(
            Box::new(SpecNode::Char(l as char)),
            Box::new(SpecNode::Char(h as char)),
        ));
        assert(union_tree_chars(SpecNode::Char(l as char)) == Some(set![l as char]));
        assert(union_tree_chars(SpecNode::Char(h as char)) == Some(set![h as char]));
        assert(union_tree_chars(n).unwrap() == set![l as char].union(set![h as char]));
        assert forall|c: char|
            union_tree_chars(n).unwrap().contains(c) <==> (l <= (c as u32) <= h) by {
            vstd::utf8::char_u32_cast(c, c as u32);
            assert(l < 0xD800 || (0xE000 <= l && l <= 0x10FFFF));
            assert(h < 0xD800 || (0xE000 <= h && h <= 0x10FFFF));
            assert((l as char) as u32 == l);
            assert((h as char) as u32 == h);
            if union_tree_chars(n).unwrap().contains(c) {
                assert(c == l as char || c == h as char);
            }
            if l <= (c as u32) <= h {
                assert((c as u32) as char == c);
                assert(c as u32 == l || c as u32 == h);
            }
        }
    } else {
        let mid = ((l + h) / 2) as u32;
        let gap = 0xD7FF <= mid && mid < 0xE000 && l <= 0xD7FF && 0xE000 <= h;
        let m1 = if gap {
            0xD7FFu32
        } else {
            mid
        };
        let m2 = if gap {
            0xE000u32
        } else {
            (mid + 1) as u32
        };
        assert(l + 1 <= (l + h) / 2 <= h - 1) by (nonlinear_arith)
            requires
                l + 2 <= h,
        ;
        assert(vstd::utf8::is_scalar(m1) && vstd::utf8::is_scalar(m2) && l <= m1 && m1 < m2 && m2
            <= h);
        lemma_btree_chars(l, m1);
        lemma_btree_chars(m2, h);
        assert(n == SpecNode::Union(
            Box::new(crate::parse::sp_union_btree(l, m1)),
            Box::new(crate::parse::sp_union_btree(m2, h)),
        ));
        assert(union_tree_chars(n).unwrap() == union_tree_chars(
            crate::parse::sp_union_btree(l, m1),
        ).unwrap().union(union_tree_chars(crate::parse::sp_union_btree(m2, h)).unwrap()));
        assert forall|c: char|
            union_tree_chars(n).unwrap().contains(c) <==> (l <= (c as u32) <= h) by {
            vstd::utf8::char_is_scalar(c);
            if l <= (c as u32) <= h {
                if c as u32 <= m1 {
                } else {
                    assert(m2 <= c as u32);
                }
            }
        }
    }
}

/// Every tree a positive character-class body parses to is an alternation
/// tree over single scalars, so the class-versus-alternation law applies
/// to it.
pub proof fn lemma_charset_is_union_tree(ts: Seq<crate::token::Token>)
    ensures
        crate::parse::sp_charset_inner(ts) matches Some(p) ==> union_tree_chars(p.0) is Some,
    decreases ts.len(),
{
    if ts.len() > 0 && ts[0] is Char {
        let c = ts[0]->Char_0;
        let rest = ts.skip(1);
        assert(union_tree_chars(SpecNode::Char(c)) == Some(set![c]));
        if rest.len() > 0 && rest[0] is Char {
            lemma_charset_is_union_tree(rest);
            match crate::parse::sp_charset_inner(rest) {
                Some((n2, _)) => {
                    assert(union_tree_chars(n2) is Some);
                    assert(union_tree_chars(
                        SpecNode::Union(Box::new(SpecNode::Char(c)), Box::new(n2)),
                    ) is Some);
                },
                None => {},
            }
        } else if rest.len() > 0 && rest[0] is Hyphen {
            let rest2 = rest.skip(1);
            if rest2.len() > 0 && rest2[0] is Char {
                let cc = rest2[0]->Char_0;
                if (c as u32) <= (cc as u32) {
                    vstd::utf8::char_is_scalar(c);
                    vstd::utf8::char_is_scalar(cc);
                    lemma_btree_chars(c as u32, cc as u32);
                    let node1 = crate::parse::sp_union_btree(c as u32, cc as u32);
                    let rest3 = rest2.skip(1);
                    if !(rest3.len() > 0 && rest3[0] is RBracket) {
                        lemma_charset_is_union_tree(rest3);
                        match crate::parse::sp_charset_inner(rest3) {
                            Some((n2, _)) => {
                                assert(union_tree_chars(n2) is Some);
                                assert(union_tree_chars(
                                    SpecNode::Union(Box::new(node1), Box::new(n2)),
                                ) is Some);
                            },
                            None => {},
                        }
                    }
                }
            }
        }
    }
}

/// Negation duality: a negated class matches a string exactly when the
/// wildcard matches it and the corresponding positive membership fails.
pub proof fn lemma_negation_duality(ex: Seq<char>, s: Seq<char>)
    ensures
        lang(SpecNode::NegChar(ex), s) <==> (lang(SpecNode::NegChar(Seq::empty()), s) && !(s.len()
            == 1 && ex.contains(s[0]))),
{
}

/// An alternation with an empty branch matches exactly what the other
/// branch matches, plus the empty string.
pub proof fn lemma_empty_branch(a: SpecNode, s: Seq<char>)
    ensures
        lang(SpecNode::Union(Box::new(a), Box::new(SpecNode::Empty)), s) <==> (lang(a, s)
            || s.len() == 0),
{
    assert(lang(SpecNode::Union(Box::new(a), Box::new(SpecNode::Empty)), s) == (lang(a, s)
        || lang(SpecNode::Empty, s)));
    assert(lang(SpecNode::Empty, s) == (s.len() == 0));
}

} // verus!
