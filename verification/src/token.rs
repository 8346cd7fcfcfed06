//! Lexing of pattern strings into token streams.
//!
//! The tokenizer walks the pattern one scalar at a time.  Each metacharacter
//! becomes its own token, a backslash escapes the next scalar, and every other
//! scalar becomes a `Char` token.  The stream always ends with `EOF`.

use std::collections::VecDeque;
use vstd::prelude::*;

verus! {

/// One lexical element of a pattern string.
#[derive(PartialEq, Eq, Structural, Clone, Copy, Debug)]
pub enum Token {
    Char(char),
    LParen,
    RParen,
    LBracket,
    RBracket,
    Asterisk,
    Hyphen,
    VBar,
    Hat,
    Dot,
    EOF,
}

/// The scalar an escape sequence `\c` stands for: the usual control-character
/// escapes, and any other scalar escapes to itself.
pub open spec fn spec_escape_char(c: char) -> char {
    if c == 'n' {
        '\n'
    } else if c == 'r' {
        '\r'
    } else if c == 't' {
        '\t'
    } else if c == '0' {
        '\0'
    } else {
        c
    }
}

/// The token a single non-escaped scalar turns into.
pub open spec fn spec_char_token(c: char) -> Token {
    if c == '(' {
        Token::LParen
    } else if c == ')' {
        Token::RParen
    } else if c == '*' {
        Token::Asterisk
    } else if c == '|' {
        Token::VBar
    } else if c == '[' {
        Token::LBracket
    } else if c == ']' {
        Token::RBracket
    } else if c == '-' {
        Token::Hyphen
    } else if c == '^' {
        Token::Hat
    } else if c == '.' {
        Token::Dot
    } else {
        Token::Char(c)
    }
}

/// The token stream of a pattern, or `None` when the pattern ends in a lone
/// backslash.  The stream is the scalars of the pattern, one token each
/// (escape sequences give one token for two scalars), followed by `EOF`.
pub open spec fn spec_tokenize(s: Seq<char>) -> Option<Seq<Token>>
    decreases s.len(),
{
    if s.len() == 0 {
        Some(seq![Token::EOF])
    } else if s[0] == '\\' {
        if s.len() == 1 {
            None
        } else {
            match spec_tokenize(s.skip(2)) {
                Some(rest) => Some(seq![Token::Char(spec_escape_char(s[1]))] + rest),
                None => None,
            }
        }
    } else {
        match spec_tokenize(s.skip(1)) {
            Some(rest) => Some(seq![spec_char_token(s[0])] + rest),
            None => None,
        }
    }
}

/// Turn a pattern string into its token stream.
///
/// Fails exactly when the pattern ends in an unfinished escape, that is, a
/// backslash with nothing after it.
pub fn tokenize(s: &String) -> (r: Result<VecDeque<Token>, String>)
    ensures
        match r {
            Ok(ts) => spec_tokenize(s@) == Some(ts@),
            Err(_) => spec_tokenize(s@) is None,
        },
{
    let mut ret = VecDeque::<Token>::new();
    let st = s.as_str();
    let n = st.unicode_len();
    let mut i: usize = 0;

    proof {
        assert(s@.skip(0) =~= s@);
    }
    while i < n
        invariant
            n == s@.len(),
            st@ == s@,
            i <= n,
            spec_tokenize(s@) == match spec_tokenize(s@.skip(i as int)) {
                Some(rest) => Some(ret@ + rest),
                None => None::<Seq<Token>>,
            },
        decreases n - i,
    {
        let c = st.get_char(i);
        proof {
            assert(s@.skip(i as int)[0] == c);
        }
        if c == '(' {
            ret.push_back(Token::LParen);
        } else if c == ')' {
            ret.push_back(Token::RParen);
        } else if c == '*' {
            ret.push_back(Token::Asterisk);
        } else if c == '|' {
            ret.push_back(Token::VBar);
        } else if c == '[' {
            ret.push_back(Token::LBracket);
        } else if c == ']' {
            ret.push_back(Token::RBracket);
        } else if c == '-' {
            ret.push_back(Token::Hyphen);
        } else if c == '^' {
            ret.push_back(Token::Hat);
        } else if c == '.' {
            ret.push_back(Token::Dot);
        } else if c == '\\' {
            if i + 1 == n {
                proof {
                    assert(s@.skip(i as int).len() == 1);
                    assert(spec_tokenize(s@) is None);
                }
                return Err("backslash is not followed by any character".to_owned());
            }
            let e = st.get_char(i + 1);
            proof {
                assert(s@.skip(i as int)[1] == e);
            }
            let escaped = if e == 'n' {
                '\n'
            } else if e == 'r' {
                '\r'
            } else if e == 't' {
                '\t'
            } else if e == '0' {
                '\0'
            } else {
                e
            };
            ret.push_back(Token::Char(escaped));
            proof {
                assert(s@.skip(i as int).skip(2) =~= s@.skip(i + 2));
            }
            i = i + 2;
            continue;
        } else {
            ret.push_back(Token::Char(c));
        }
        proof {
            assert(s@.skip(i as int).skip(1) =~= s@.skip(i + 1));
        }
        i = i + 1;
    }
    proof {
        assert(s@.skip(n as int) =~= Seq::<char>::empty());
    }
    ret.push_back(Token::EOF);
    Ok(ret)
}

} // verus!
