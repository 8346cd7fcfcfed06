//! Behavioural tests: the pattern dialect, the search primitives, and the
//! error cases.

use tiny_regex::TinyRegex;
use tiny_regex::TinyRegexInner;
use tiny_regex::dfa::OnTheFlyDFA;

#[test]
fn rejects_malformed_patterns() {
    assert!(TinyRegex::new("(").is_err());
    assert!(TinyRegex::new("[a-").is_err());
    assert!(TinyRegex::new("a\\").is_err());
    assert!(TinyRegex::new("*").is_err());
    assert!(TinyRegex::new(")").is_err());
    assert!(TinyRegex::new("[]").is_err());
    assert!(TinyRegex::new("a-b").is_err());
    assert!(TinyRegex::new("a^b").is_err());
    assert!(TinyRegex::new("[z-a]").is_err());
}

#[test]
fn no_match_without_branch_head() {
    let mut re = TinyRegex::new("a*(b|cd*)").unwrap();
    // A match needs a `b` or a `c` somewhere; bare `a`s and `d`s have none.
    assert!(!re.is_match("aaadd"));
    assert!(re.is_match("aab"));
    assert!(re.is_match("ccdddd"));
}

#[test]
fn empty_branch_matches_empty() {
    let mut re = TinyRegex::new("a|").unwrap();
    assert!(re.is_match("a"));
    assert!(re.is_match(""));
    let mat = re.find("a").unwrap();
    assert_eq!(mat.range(), 0..0);
}

#[test]
fn empty_pattern_matches_empty() {
    let mut re = TinyRegex::new("").unwrap();
    assert!(re.is_match(""));
    let mat = re.find("abc").unwrap();
    assert_eq!(mat.range(), 0..0);
    assert_eq!(mat.as_str(), "");
    assert!(mat.is_empty());
}

#[test]
fn star_reports_empty_match_first() {
    let mut re = TinyRegex::new("a*").unwrap();
    let mat = re.find("aaa").unwrap();
    assert_eq!(mat.range(), 0..0);
    assert_eq!(mat.len(), 0);
}

#[test]
fn zero_width_matches_advance_one_scalar() {
    let mut re = TinyRegex::new("a*").unwrap();
    let mut matches = re.find_all("b");
    assert_eq!(matches.next().unwrap().range(), 0..0);
    assert_eq!(matches.next().unwrap().range(), 1..1);
    assert_eq!(matches.next(), None);
}

#[test]
fn escapes_are_literal() {
    let mut re = TinyRegex::new("\\*").unwrap();
    assert!(re.is_match("2*3"));
    assert!(!re.is_match("23"));

    let mut nl = TinyRegex::new("\\n").unwrap();
    assert!(nl.is_match("line\nbreak"));
    let mat = nl.find("line\nbreak").unwrap();
    assert_eq!(mat.range(), 4..5);

    let mut tab = TinyRegex::new("a\\tb").unwrap();
    assert!(tab.is_match("a\tb"));
    assert!(!tab.is_match("atb"));
}

#[test]
fn dot_matches_any_scalar() {
    let mut re = TinyRegex::new("a.c").unwrap();
    assert!(re.is_match("abc"));
    assert!(re.is_match("aんc"));
    assert!(!re.is_match("ac"));
}

#[test]
fn class_and_alternation_agree() {
    let mut class = TinyRegex::new("[abc]").unwrap();
    let mut alts = TinyRegex::new("a|b|c").unwrap();
    for s in ["a", "b", "c", "d", "", "ab"] {
        assert_eq!(class.is_match(s), alts.is_match(s));
    }
    assert!(class.is_match("b"));
    assert!(!class.is_match("d"));
}

#[test]
fn negated_class_excludes_exactly() {
    let mut re = TinyRegex::new("[^a-c]").unwrap();
    assert!(!re.is_match("a"));
    assert!(!re.is_match("b"));
    assert!(!re.is_match("c"));
    assert!(re.is_match("d"));
    assert!(re.is_match("あ"));
}

#[test]
fn find_at_respects_start() {
    let mut re = TinyRegex::new("a").unwrap();
    let s = "a a";
    let first = re.find_at(s, 0).unwrap();
    assert_eq!(first.range(), 0..1);
    let second = re.find_at(s, 1).unwrap();
    assert_eq!(second.range(), 2..3);
    assert!(re.find_at(s, 3).is_none());
    assert!(re.find_at(s, 17).is_none());
}

#[test]
fn find_is_leftmost_longest() {
    let mut re = TinyRegex::new("ab|abc").unwrap();
    let mat = re.find("zabcz").unwrap();
    assert_eq!(mat.as_str(), "abc");

    let mut digits = TinyRegex::new("[0-9][0-9]*").unwrap();
    let mat2 = digits.find("ab1234cd99").unwrap();
    assert_eq!(mat2.range(), 2..6);
    assert_eq!(mat2.as_str(), "1234");
}

#[test]
fn offsets_fall_on_scalar_boundaries() {
    let mut re = TinyRegex::new("ょ").unwrap();
    let s = "うにょ";
    let mat = re.find(s).unwrap();
    assert_eq!(mat.range(), 6..9);
    assert_eq!(&s[mat.range()], "ょ");
    assert_eq!(mat.as_str(), "ょ");
    assert!(s.is_char_boundary(mat.start()));
    assert!(s.is_char_boundary(mat.end()));
}

#[test]
fn grouping_and_star_nest() {
    let mut re = TinyRegex::new("(ab)*c").unwrap();
    assert!(re.is_match("c"));
    assert!(re.is_match("ababc"));
    assert!(!re.is_match("abab"));
    let mat = re.find("xxababc").unwrap();
    assert_eq!(mat.as_str(), "ababc");
}

#[test]
fn lazy_variant_agrees_with_eager() {
    let pats = ["a*(b|cd*)", "[a-z][0-9]*", ".", "x|y|z", "[^x]y"];
    let inputs = ["", "x", "xy", "ay", "cddd", "a9", "zzz"];
    for p in pats {
        let mut eager = TinyRegex::new(p).unwrap();
        let mut lazy = TinyRegexInner::<OnTheFlyDFA>::new(p).unwrap();
        for s in inputs {
            assert_eq!(eager.is_match(s), lazy.is_match(s));
            assert_eq!(eager.find(s), lazy.find(s));
        }
    }
}

#[test]
fn match_accessors_agree() {
    let mut re = TinyRegex::new("na").unwrap();
    let s = "banana";
    let mat = re.find(s).unwrap();
    assert_eq!(mat.start(), 2);
    assert_eq!(mat.end(), 4);
    assert_eq!(mat.len(), 2);
    assert!(!mat.is_empty());
    assert_eq!(mat.as_str(), "na");
    assert_eq!(&s[mat.range()], "na");
}
