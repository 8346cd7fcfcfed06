//! Recursive-descent parser for the pattern grammar.
//!
//! The grammar, top level first:
//!
//! ```text
//! expr          := subexpr EOF
//! subexpr       := sequence ('|' subexpr)?
//! sequence      := subseq | ''
//! subseq        := star subseq?
//! star          := factor '*'?
//! factor        := '(' subexpr ')' | CHAR | '[' charset ']' | '[' '^' charset ']' | '.'
//! charset       := CHAR ('-' CHAR)? charset?
//! ```
//!
//! Positive character classes expand into balanced trees of `Union` nodes;
//! negated classes become a single `NegChar` node carrying the excluded
//! scalars.  An empty alternation branch becomes the `Empty` node, which
//! matches exactly the empty string.
//!
//! Every parsing function is specified against a spec-level mirror of its
//! production, so the tree built for a given token stream is pinned exactly.

use std::collections::VecDeque;
use vstd::prelude::*;
use vstd::utf8::is_scalar;
use crate::token::Token;

verus! {

/// Relies on `char::from_u32` from std: it returns `Some` exactly for
/// Unicode scalar values, and the returned `char` has the given code point.
pub assume_specification[ char::from_u32 ](i: u32) -> (r: Option<char>)
    ensures
        r is Some <==> is_scalar(i),
        r is Some ==> r.unwrap() as u32 == i,
;

/// A node of the abstract syntax tree.
///
/// `NegChar` carries the excluded scalars; with an empty exclusion list it
/// is the wildcard `.`.  `Empty` is the empty regular expression, produced
/// for an empty alternation branch; it matches only the empty string.
#[derive(Debug)]
pub enum Node {
    Char(char),
    Concat((Box<Node>, Box<Node>)),
    Union((Box<Node>, Box<Node>)),
    Repeat(Box<Node>),
    NegChar(Vec<char>),
    Empty,
}

/// The mathematical shape of a syntax tree, with the exclusion list of a
/// negated class abstracted to a sequence of scalars.
pub enum SpecNode {
    Char(char),
    Concat(Box<SpecNode>, Box<SpecNode>),
    Union(Box<SpecNode>, Box<SpecNode>),
    Repeat(Box<SpecNode>),
    NegChar(Seq<char>),
    Empty,
}

impl View for Node {
    type V = SpecNode;

    open spec fn view(&self) -> SpecNode
        decreases self,
    {
        match self {
            Node::Char(c) => SpecNode::Char(*c),
            Node::Concat((a, b)) => SpecNode::Concat(Box::new((**a)@), Box::new((**b)@)),
            Node::Union((a, b)) => SpecNode::Union(Box::new((**a)@), Box::new((**b)@)),
            Node::Repeat(a) => SpecNode::Repeat(Box::new((**a)@)),
            Node::NegChar(ex) => SpecNode::NegChar(ex@),
            Node::Empty => SpecNode::Empty,
        }
    }
}

/// The language of a syntax tree: whether the scalar string `s` is matched
/// by the regular expression `n`, taken as a whole.
pub open spec fn lang(n: SpecNode, s: Seq<char>) -> bool
    decreases s.len(), n,
{
    match n {
        SpecNode::Char(c) => s =~= seq![c],
        SpecNode::Empty => s.len() == 0,
        SpecNode::NegChar(ex) => s.len() == 1 && !ex.contains(s[0]),
        SpecNode::Concat(a, b) => exists|i: int|
            0 <= i <= s.len() && lang(*a, s.take(i)) && lang(*b, s.skip(i)),
        SpecNode::Union(a, b) => lang(*a, s) || lang(*b, s),
        SpecNode::Repeat(a) => s.len() == 0 || exists|i: int|
            0 < i <= s.len() && lang(*a, s.take(i)) && lang(SpecNode::Repeat(a), s.skip(i)),
    }
}

/// Wrap a scalar as a leaf node.
pub fn character(c: char) -> (r: Box<Node>)
    ensures
        (*r)@ == SpecNode::Char(c),
{
    Box::new(Node::Char(c))
}

/// Start an exclusion list from a single scalar.
pub fn neg_character(c: char) -> (r: Vec<char>)
    ensures
        r@ == seq![c],
{
    let mut set = Vec::new();
    set.push(c);
    set
}

/// Join two trees under a concatenation node.
pub fn concat(node1: Node, node2: Node) -> (r: Box<Node>)
    ensures
        (*r)@ == SpecNode::Concat(Box::new(node1@), Box::new(node2@)),
{
    Box::new(Node::Concat((Box::new(node1), Box::new(node2))))
}

/// Join two trees under an alternation node.
pub fn union(node1: Node, node2: Node) -> (r: Box<Node>)
    ensures
        (*r)@ == SpecNode::Union(Box::new(node1@), Box::new(node2@)),
{
    Box::new(Node::Union((Box::new(node1), Box::new(node2))))
}

/// Wrap a tree under a Kleene-star node.
pub fn repeat(node: Node) -> (r: Box<Node>)
    ensures
        (*r)@ == SpecNode::Repeat(Box::new(node@)),
{
    Box::new(Node::Repeat(Box::new(node)))
}

/// Pop the front token; fail unless it is the expected one.
pub fn consume(tokens: &mut VecDeque<Token>, token: Token) -> (r: Result<(), String>)
    ensures
        match r {
            Ok(_) => old(tokens)@.len() > 0 && old(tokens)@[0] == token && final(tokens)@
                == old(tokens)@.skip(1),
            Err(_) => old(tokens)@.len() == 0 || old(tokens)@[0] != token,
        },
{
    let next = match tokens.pop_front() {
        Some(t) => t,
        None => {
            return Err("Unexpected end of tokens".to_owned());
        },
    };
    proof {
        assert(tokens@ =~= old(tokens)@.skip(1));
    }
    if next == token {
        Ok(())
    } else {
        Err("Unexpected token".to_owned())
    }
}

/// The balanced alternation tree covering the scalars from `l` up to `h`,
/// both taken as code points.  The tree splits the range at its midpoint;
/// when the midpoint falls into the surrogate gap the two halves resume on
/// either side of the gap.
pub open spec fn sp_union_btree(l: u32, h: u32) -> SpecNode
    decreases h - l,
{
    if h <= l {
        SpecNode::Char(l as char)
    } else if h == l + 1 {
        SpecNode::Union(Box::new(SpecNode::Char(l as char)), Box::new(SpecNode::Char(h as char)))
    } else {
        let mid = ((l + h) / 2) as u32;
        let gap = 0xD7FF <= mid && mid < 0xE000 && l <= 0xD7FF && 0xE000 <= h;
        let m1 = if gap {
            0xD7FFu32
        } else {
            mid
        };
        let m2 = if gap {
            0xE000u32
        } else {
            (mid + 1) as u32
        };
        SpecNode::Union(Box::new(sp_union_btree(l, m1)), Box::new(sp_union_btree(m2, h)))
    }
}

/// Build the balanced alternation tree for an inclusive scalar range.
pub fn build_union_btree(start_char: char, end_char: char) -> (r: Box<Node>)
    requires
        start_char as u32 <= end_char as u32,
    ensures
        (*r)@ == sp_union_btree(start_char as u32, end_char as u32),
    decreases end_char as u32 - start_char as u32,
{
    let l = start_char as u32;
    let h = end_char as u32;
    proof {
        vstd::utf8::char_is_scalar(start_char);
        vstd::utf8::char_is_scalar(end_char);
        vstd::utf8::char_u32_cast(start_char, l);
        vstd::utf8::char_u32_cast(end_char, h);
    }
    if h <= l {
        character(start_char)
    } else if h == l + 1 {
        union(Node::Char(start_char), Node::Char(end_char))
    } else {
        let mid = (l + h) / 2;
        proof {
            if 0xD7FF <= mid && mid < 0xE000 {
                assert(l <= 0xD7FF);
                assert(0xE000 <= h);
            }
        }
        let m1: u32 = if 0xD7FF <= mid && mid < 0xE000 {
            0xD7FF
        } else {
            mid
        };
        let m2: u32 = if 0xD7FF <= mid && mid < 0xE000 {
            0xE000
        } else {
            mid + 1
        };
        let c1 = match char::from_u32(m1) {
            Some(c) => c,
            None => unreached(),
        };
        let c2 = match char::from_u32(m2) {
            Some(c) => c,
            None => unreached(),
        };
        let node1 = build_union_btree(start_char, c1);
        let node2 = build_union_btree(c2, end_char);
        union(*node1, *node2)
    }
}

/// The scalars of the inclusive code-point range `l ..= h`, in ascending
/// order, with the surrogate gap skipped.
pub open spec fn range_chars(l: int, h: int) -> Seq<char>
    decreases h + 1 - l,
{
    if l > h {
        Seq::empty()
    } else {
        let rest = range_chars(l, h - 1);
        if 0 <= h && is_scalar(h as u32) {
            rest + seq![(h as u32) as char]
        } else {
            rest
        }
    }
}

/// Collect the scalars of an inclusive range into a vector.
fn charset_range(start_char: char, end_char: char) -> (r: Vec<char>)
    ensures
        r@ == range_chars(start_char as u32 as int, end_char as u32 as int),
{
    let l = start_char as u32;
    let h = end_char as u32;
    let mut v: Vec<char> = Vec::new();
    if h < l {
        return v;
    }
    let mut u: u32 = l;
    while u <= h
        invariant
            l <= u <= h + 1,
            h < 0x11_0000,
            v@ == range_chars(l as int, u as int - 1),
        decreases h + 1 - u,
    {
        match char::from_u32(u) {
            Some(c) => {
                v.push(c);
                proof {
                    assert((u as u32) as char == c) by {
                        vstd::utf8::char_u32_cast(c, u);
                    }
                }
            },
            None => {},
        }
        u = u + 1;
    }
    v
}

/// The node and remaining tokens a positive character class body parses to,
/// or `None` when the class is malformed.
pub open spec fn sp_charset_inner(ts: Seq<Token>) -> Option<(SpecNode, Seq<Token>)>
    decreases ts.len(),
{
    if ts.len() == 0 {
        None
    } else if !(ts[0] is Char) {
        None
    } else {
        let c = ts[0]->Char_0;
        let rest = ts.skip(1);
        if rest.len() > 0 && rest[0] is Char {
            match sp_charset_inner(rest) {
                Some((n2, rem)) => Some(
                    (SpecNode::Union(Box::new(SpecNode::Char(c)), Box::new(n2)), rem),
                ),
                None => None,
            }
        } else if rest.len() > 0 && rest[0] is Hyphen {
            let rest2 = rest.skip(1);
            if rest2.len() == 0 || !(rest2[0] is Char) {
                None
            } else {
                let cc = rest2[0]->Char_0;
                if (cc as u32) < (c as u32) {
                    None
                } else {
                    let node1 = sp_union_btree(c as u32, cc as u32);
                    let rest3 = rest2.skip(1);
                    if rest3.len() > 0 && rest3[0] is RBracket {
                        Some((node1, rest3))
                    } else {
                        match sp_charset_inner(rest3) {
                            Some((n2, rem)) => Some(
                                (SpecNode::Union(Box::new(node1), Box::new(n2)), rem),
                            ),
                            None => None,
                        }
                    }
                }
            }
        } else if rest.len() > 0 && rest[0] is RBracket {
            Some((SpecNode::Char(c), rest))
        } else {
            None
        }
    }
}

/// The exclusion list and remaining tokens a negated character class body
/// parses to, or `None` when the class is malformed.
pub open spec fn sp_charset_inner_neg(ts: Seq<Token>) -> Option<(Seq<char>, Seq<Token>)>
    decreases ts.len(),
{
    if ts.len() == 0 {
        None
    } else if !(ts[0] is Char) {
        None
    } else {
        let c = ts[0]->Char_0;
        let rest = ts.skip(1);
        if rest.len() > 0 && rest[0] is Char {
            match sp_charset_inner_neg(rest) {
                Some((s2, rem)) => Some((seq![c] + s2, rem)),
                None => None,
            }
        } else if rest.len() > 0 && rest[0] is Hyphen {
            let rest2 = rest.skip(1);
            if rest2.len() == 0 || !(rest2[0] is Char) {
                None
            } else {
                let cc = rest2[0]->Char_0;
                let set1 = range_chars(c as u32 as int, cc as u32 as int);
                let rest3 = rest2.skip(1);
                if rest3.len() > 0 && rest3[0] is RBracket {
                    Some((set1, rest3))
                } else {
                    match sp_charset_inner_neg(rest3) {
                        Some((s2, rem)) => Some((set1 + s2, rem)),
                        None => None,
                    }
                }
            }
        } else if rest.len() > 0 && rest[0] is RBracket {
            Some((seq![c], rest))
        } else {
            None
        }
    }
}

/// Parse the body of a positive character class into a union tree.
pub fn charset_inner(tokens: &mut VecDeque<Token>) -> (r: Result<Box<Node>, String>)
    ensures
        match r {
            Ok(node) => sp_charset_inner(old(tokens)@) == Some(((*node)@, final(tokens)@))
                && final(tokens)@.len() < old(tokens)@.len(),
            Err(_) => sp_charset_inner(old(tokens)@) is None,
        },
    decreases old(tokens)@.len(),
{
    let token = match tokens.pop_front() {
        Some(t) => t,
        None => {
            return Err("Unexpected end of tokens".to_owned());
        },
    };
    proof {
        assert(tokens@ =~= old(tokens)@.skip(1));
    }
    if let Token::Char(c) = token {
        if tokens.len() > 0 && matches!(tokens[0], Token::Char(_)) {
            let node2 = charset_inner(tokens)?;
            Ok(union(Node::Char(c), *node2))
        } else if tokens.len() > 0 && matches!(tokens[0], Token::Hyphen) {
            let ghost rest = old(tokens)@.skip(1);
            let _ = tokens.pop_front();
            proof {
                assert(tokens@ =~= rest.skip(1));
            }
            let cc = match tokens.pop_front() {
                Some(Token::Char(cc)) => cc,
                Some(_) => {
                    return Err("Unexpected meta character".to_owned());
                },
                None => {
                    return Err("Unexpected end of tokens".to_owned());
                },
            };
            proof {
                assert(tokens@ =~= rest.skip(1).skip(1));
            }
            if (cc as u32) < (c as u32) {
                return Err("Character range is out of order".to_owned());
            }
            let node1 = build_union_btree(c, cc);
            if tokens.len() > 0 && matches!(tokens[0], Token::RBracket) {
                Ok(node1)
            } else {
                let node2 = charset_inner(tokens)?;
                Ok(union(*node1, *node2))
            }
        } else if tokens.len() > 0 && matches!(tokens[0], Token::RBracket) {
            Ok(character(c))
        } else {
            Err("Unexpected token".to_owned())
        }
    } else {
        Err("Unexpected token".to_owned())
    }
}

/// Parse the body of a negated character class into its exclusion list.
pub fn charset_inner_neg(tokens: &mut VecDeque<Token>) -> (r: Result<Vec<char>, String>)
    ensures
        match r {
            Ok(set) => sp_charset_inner_neg(old(tokens)@) == Some((set@, final(tokens)@))
                && final(tokens)@.len() < old(tokens)@.len(),
            Err(_) => sp_charset_inner_neg(old(tokens)@) is None,
        },
    decreases old(tokens)@.len(),
{
    let token = match tokens.pop_front() {
        Some(t) => t,
        None => {
            return Err("Unexpected end of tokens".to_owned());
        },
    };
    proof {
        assert(tokens@ =~= old(tokens)@.skip(1));
    }
    if let Token::Char(c) = token {
        if tokens.len() > 0 && matches!(tokens[0], Token::Char(_)) {
            let set2 = charset_inner_neg(tokens)?;
            let mut set1 = neg_character(c);
            let mut i: usize = 0;
            while i < set2.len()
                invariant
                    set1@ == seq![c] + set2@.take(i as int),
                    i <= set2@.len(),
                decreases set2@.len() - i,
            {
                set1.push(set2[i]);
                proof {
                    assert(seq![c] + set2@.take(i as int) + seq![set2@[i as int]] =~= seq![c]
                        + set2@.take(i as int + 1));
                }
                i = i + 1;
            }
            proof {
                assert(set2@.take(set2@.len() as int) =~= set2@);
            }
            Ok(set1)
        } else if tokens.len() > 0 && matches!(tokens[0], Token::Hyphen) {
            let ghost rest = old(tokens)@.skip(1);
            let _ = tokens.pop_front();
            proof {
                assert(tokens@ =~= rest.skip(1));
            }
            let cc = match tokens.pop_front() {
                Some(Token::Char(cc)) => cc,
                Some(_) => {
                    return Err("Unexpected meta character".to_owned());
                },
                None => {
                    return Err("Unexpected end of tokens".to_owned());
                },
            };
            proof {
                assert(tokens@ =~= rest.skip(1).skip(1));
            }
            let mut set1 = charset_range(c, cc);
            if tokens.len() > 0 && matches!(tokens[0], Token::RBracket) {
                Ok(set1)
            } else {
                let set2 = charset_inner_neg(tokens)?;
                let ghost base = set1@;
                let mut i: usize = 0;
                while i < set2.len()
                    invariant
                        set1@ == base + set2@.take(i as int),
                        i <= set2@.len(),
                    decreases set2@.len() - i,
                {
                    set1.push(set2[i]);
                    proof {
                        assert(base + set2@.take(i as int) + seq![set2@[i as int]] =~= base
                            + set2@.take(i as int + 1));
                    }
                    i = i + 1;
                }
                proof {
                    assert(base + set2@.take(set2@.len() as int) =~= base + set2@);
                    assert(base =~= base + set2@.take(0));
                }
                Ok(set1)
            }
        } else if tokens.len() > 0 && matches!(tokens[0], Token::RBracket) {
            Ok(neg_character(c))
        } else {
            Err("Unexpected token".to_owned())
        }
    } else {
        Err("Unexpected token".to_owned())
    }
}

/// Whether a token can begin a factor.
pub open spec fn starts_factor(t: Token) -> bool {
    t is LParen || t is Char || t is LBracket || t is Dot
}

/// The node and remaining tokens a factor parses to.
pub open spec fn sp_factor(ts: Seq<Token>) -> Option<(SpecNode, Seq<Token>)>
    decreases ts.len(), 0int,
{
    if ts.len() == 0 {
        None
    } else {
        let t = ts[0];
        let rest = ts.skip(1);
        if t is LParen {
            match sp_subexpr(rest) {
                Some((n, rem)) => if rem.len() > 0 && rem[0] is RParen {
                    Some((n, rem.skip(1)))
                } else {
                    None
                },
                None => None,
            }
        } else if t is Char {
            Some((SpecNode::Char(t->Char_0), rest))
        } else if t is LBracket {
            if rest.len() > 0 && rest[0] is Hat {
                match sp_charset_inner_neg(rest.skip(1)) {
                    Some((ex, rem)) => if rem.len() > 0 && rem[0] is RBracket {
                        Some((SpecNode::NegChar(ex), rem.skip(1)))
                    } else {
                        None
                    },
                    None => None,
                }
            } else {
                match sp_charset_inner(rest) {
                    Some((n, rem)) => if rem.len() > 0 && rem[0] is RBracket {
                        Some((n, rem.skip(1)))
                    } else {
                        None
                    },
                    None => None,
                }
            }
        } else if t is Dot {
            Some((SpecNode::NegChar(Seq::empty()), rest))
        } else {
            None
        }
    }
}

/// The node and remaining tokens a starred factor parses to.
pub open spec fn sp_star(ts: Seq<Token>) -> Option<(SpecNode, Seq<Token>)>
    decreases ts.len(), 1int,
{
    match sp_factor(ts) {
        Some((n, rem)) => if rem.len() > 0 && rem[0] is Asterisk {
            Some((SpecNode::Repeat(Box::new(n)), rem.skip(1)))
        } else {
            Some((n, rem))
        },
        None => None,
    }
}

/// The node and remaining tokens a non-empty concatenation parses to.
pub open spec fn sp_subseq(ts: Seq<Token>) -> Option<(SpecNode, Seq<Token>)>
    decreases ts.len(), 2int,
{
    match sp_star(ts) {
        Some((n1, rem)) => if rem.len() > 0 && starts_factor(rem[0]) {
            if rem.len() < ts.len() {
                match sp_subseq(rem) {
                    Some((n2, rem2)) => Some(
                        (SpecNode::Concat(Box::new(n1), Box::new(n2)), rem2),
                    ),
                    None => None,
                }
            } else {
                None
            }
        } else if rem.len() > 0 {
            Some((n1, rem))
        } else {
            None
        },
        None => None,
    }
}

/// The node and remaining tokens a possibly empty concatenation parses to.
/// An empty branch gives the `Empty` node.
pub open spec fn sp_sequence(ts: Seq<Token>) -> Option<(SpecNode, Seq<Token>)>
    decreases ts.len(), 3int,
{
    if ts.len() == 0 {
        None
    } else if starts_factor(ts[0]) {
        sp_subseq(ts)
    } else {
        Some((SpecNode::Empty, ts))
    }
}

/// The node and remaining tokens an alternation parses to.
pub open spec fn sp_subexpr(ts: Seq<Token>) -> Option<(SpecNode, Seq<Token>)>
    decreases ts.len(), 4int,
{
    match sp_sequence(ts) {
        Some((n1, rem)) => if rem.len() > 0 && rem[0] is VBar {
            if rem.skip(1).len() < ts.len() {
                match sp_subexpr(rem.skip(1)) {
                    Some((n2, rem2)) => Some(
                        (SpecNode::Union(Box::new(n1), Box::new(n2)), rem2),
                    ),
                    None => None,
                }
            } else {
                None
            }
        } else if rem.len() > 0 {
            Some((n1, rem))
        } else {
            None
        },
        None => None,
    }
}

/// The node a whole token stream parses to: an alternation followed by
/// `EOF`, with nothing after it.
pub open spec fn sp_expr(ts: Seq<Token>) -> Option<(SpecNode, Seq<Token>)>
    decreases ts.len(), 5int,
{
    match sp_subexpr(ts) {
        Some((n, rem)) => if rem.len() > 0 && rem[0] is EOF && rem.len() == 1 {
            Some((n, rem.skip(1)))
        } else {
            None
        },
        None => None,
    }
}

/// The syntax tree of a whole token stream, or `None` on a parse error.
pub open spec fn spec_parse(ts: Seq<Token>) -> Option<SpecNode> {
    match sp_expr(ts) {
        Some((n, _)) => Some(n),
        None => None,
    }
}

/// Parse a factor: a group, a literal, a character class, or the wildcard.
pub fn factor(tokens: &mut VecDeque<Token>) -> (r: Result<Box<Node>, String>)
    ensures
        match r {
            Ok(node) => sp_factor(old(tokens)@) == Some(((*node)@, final(tokens)@))
                && final(tokens)@.len() < old(tokens)@.len(),
            Err(_) => sp_factor(old(tokens)@) is None,
        },
    decreases old(tokens)@.len(), 0int,
{
    let token = match tokens.pop_front() {
        Some(t) => t,
        None => {
            return Err("Unexpected end of tokens".to_owned());
        },
    };
    proof {
        assert(tokens@ =~= old(tokens)@.skip(1));
    }
    if token == Token::LParen {
        let node = subexpr(tokens)?;
        consume(tokens, Token::RParen)?;
        Ok(node)
    } else if let Token::Char(c) = token {
        Ok(character(c))
    } else if token == Token::LBracket {
        if tokens.len() > 0 && matches!(tokens[0], Token::Hat) {
            let ghost rest = old(tokens)@.skip(1);
            let _ = tokens.pop_front();
            proof {
                assert(tokens@ =~= rest.skip(1));
            }
            let set = charset_inner_neg(tokens)?;
            consume(tokens, Token::RBracket)?;
            Ok(Box::new(Node::NegChar(set)))
        } else {
            let node = charset_inner(tokens)?;
            consume(tokens, Token::RBracket)?;
            Ok(node)
        }
    } else if token == Token::Dot {
        let v: Vec<char> = Vec::new();
        proof {
            assert(v@ =~= Seq::<char>::empty());
        }
        Ok(Box::new(Node::NegChar(v)))
    } else {
        Err("Unexpected token".to_owned())
    }
}

/// Parse a factor with an optional Kleene star.
pub fn star(tokens: &mut VecDeque<Token>) -> (r: Result<Box<Node>, String>)
    ensures
        match r {
            Ok(node) => sp_star(old(tokens)@) == Some(((*node)@, final(tokens)@))
                && final(tokens)@.len() < old(tokens)@.len(),
            Err(_) => sp_star(old(tokens)@) is None,
        },
    decreases old(tokens)@.len(), 1int,
{
    let node = factor(tokens)?;
    if tokens.len() > 0 && matches!(tokens[0], Token::Asterisk) {
        let ghost rest = tokens@;
        let _ = tokens.pop_front();
        proof {
            assert(tokens@ =~= rest.skip(1));
        }
        Ok(repeat(*node))
    } else {
        Ok(node)
    }
}

/// Parse a concatenation of one or more starred factors.
pub fn subseq(tokens: &mut VecDeque<Token>) -> (r: Result<Box<Node>, String>)
    ensures
        match r {
            Ok(node) => sp_subseq(old(tokens)@) == Some(((*node)@, final(tokens)@))
                && final(tokens)@.len() < old(tokens)@.len(),
            Err(_) => sp_subseq(old(tokens)@) is None,
        },
    decreases old(tokens)@.len(), 2int,
{
    let node = star(tokens)?;
    if tokens.len() == 0 {
        return Err("Unexpected end of tokens".to_owned());
    }
    let next = tokens[0];
    if matches!(next, Token::LParen | Token::Char(_) | Token::LBracket | Token::Dot) {
        let node2 = subseq(tokens)?;
        Ok(concat(*node, *node2))
    } else {
        Ok(node)
    }
}

/// Parse a possibly empty concatenation; an empty one gives `Empty`.
pub fn sequence(tokens: &mut VecDeque<Token>) -> (r: Result<Box<Node>, String>)
    ensures
        match r {
            Ok(node) => sp_sequence(old(tokens)@) == Some(((*node)@, final(tokens)@))
                && final(tokens)@.len() <= old(tokens)@.len(),
            Err(_) => sp_sequence(old(tokens)@) is None,
        },
    decreases old(tokens)@.len(), 3int,
{
    if tokens.len() == 0 {
        return Err("Unexpected end of tokens".to_owned());
    }
    let next = tokens[0];
    if matches!(next, Token::LParen | Token::Char(_) | Token::LBracket | Token::Dot) {
        subseq(tokens)
    } else {
        Ok(Box::new(Node::Empty))
    }
}

/// Parse an alternation of sequences.
pub fn subexpr(tokens: &mut VecDeque<Token>) -> (r: Result<Box<Node>, String>)
    ensures
        match r {
            Ok(node) => sp_subexpr(old(tokens)@) == Some(((*node)@, final(tokens)@))
                && final(tokens)@.len() <= old(tokens)@.len(),
            Err(_) => sp_subexpr(old(tokens)@) is None,
        },
    decreases old(tokens)@.len(), 4int,
{
    let node = sequence(tokens)?;
    if tokens.len() == 0 {
        return Err("Unexpected end of tokens".to_owned());
    }
    if matches!(tokens[0], Token::VBar) {
        let ghost rest = tokens@;
        let _ = tokens.pop_front();
        proof {
            assert(tokens@ =~= rest.skip(1));
        }
        let node2 = subexpr(tokens)?;
        Ok(union(*node, *node2))
    } else {
        Ok(node)
    }
}

/// Parse a whole token stream: an alternation followed by `EOF`.
pub fn expr(tokens: &mut VecDeque<Token>) -> (r: Result<Box<Node>, String>)
    ensures
        match r {
            Ok(node) => sp_expr(old(tokens)@) == Some(((*node)@, final(tokens)@)),
            Err(_) => sp_expr(old(tokens)@) is None,
        },
    decreases old(tokens)@.len(), 5int,
{
    let node = subexpr(tokens)?;
    consume(tokens, Token::EOF)?;
    if tokens.len() == 0 {
        Ok(node)
    } else {
        Err("Unexpected end of tokens".to_owned())
    }
}

/// Parse a token stream into a syntax tree.
///
/// Returns the tree that `spec_parse` gives for the stream, and fails
/// exactly when the stream does not conform to the grammar.
pub fn parse(tokens: &mut VecDeque<Token>) -> (r: Result<Node, String>)
    ensures
        match r {
            Ok(root) => spec_parse(old(tokens)@) == Some(root@),
            Err(_) => spec_parse(old(tokens)@) is None,
        },
{
    match expr(tokens) {
        Ok(root) => Ok(*root),
        Err(e) => Err("Parse Error: ".to_owned().concat(e.as_str())),
    }
}

} // verus!
