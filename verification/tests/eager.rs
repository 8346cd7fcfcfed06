//! End-to-end tests of the eagerly built DFA variant.

use tiny_regex::TinyRegex;
use tiny_regex::dfa::{DFA, DFAExt};
use tiny_regex::nfa::build_nfa;
use tiny_regex::parse::parse;
use tiny_regex::token::tokenize;

#[test]
fn count_states() {
    let regex = "[a-zA-Z0-9]".repeat(30);
    let mut tokens = tokenize(&regex.to_string()).unwrap();
    let root = parse(&mut tokens).unwrap();
    let nfa = build_nfa(root);
    let dfa = DFA::new(nfa);

    // The dense identifiers plus the slot of the dead sentinel.
    assert_eq!(dfa.state_num_range().end + 1, 1862);
}

#[test]
fn test_find() {
    let mut re = TinyRegex::new("[a-zA-Z][a-zA-Z0-9]*").unwrap();
    let s = "うにょ hello114514";
    let mat = re.find(s).unwrap();

    assert_eq!(10..21, mat.range());
    assert_eq!("hello114514", &s[mat.range()]);
    assert_eq!("hello114514", mat.as_str());
}

#[test]
fn test_for_readme() {
    let mut re = TinyRegex::new("a(b|c)*d").unwrap();
    assert!(re.is_match("abbbcd"));
    assert!(!re.is_match("abbbce"));

    let mat = re.find("wxyzabbbcdeffe").unwrap();
    assert_eq!(mat.start(), 4);
    assert_eq!(mat.end(), 10);
    assert_eq!(mat.as_str(), "abbbcd");
    assert_eq!(mat.range(), 4..10);
}

#[test]
fn test_find_all() {
    let mut re = TinyRegex::new("[a-zA-Z][a-zA-Z]*").unwrap();
    let s = "my name is Unyo";

    let mut matches = re.find_all(s);
    assert_eq!(matches.next().unwrap().as_str(), "my");
    assert_eq!(matches.next().unwrap().as_str(), "name");
    assert_eq!(matches.next().unwrap().as_str(), "is");
    assert_eq!(matches.next().unwrap().as_str(), "Unyo");
    assert_eq!(matches.next(), None);
}

#[test]
fn test_negchar() {
    let mut re = TinyRegex::new("[^・ー]").unwrap();
    let s = "エドワード・ノートン\n";

    let mut matches = re.find_all(s);
    assert_eq!(matches.next().unwrap().as_str(), "エ");
    assert_eq!(matches.next().unwrap().as_str(), "ド");
    assert_eq!(matches.next().unwrap().as_str(), "ワ");
    assert_eq!(matches.next().unwrap().as_str(), "ド");
    assert_eq!(matches.next().unwrap().as_str(), "ノ");
    assert_eq!(matches.next().unwrap().as_str(), "ト");
    assert_eq!(matches.next().unwrap().as_str(), "ン");
    assert_eq!(matches.next().unwrap().as_str(), "\n");
    assert_eq!(matches.next(), None);
}
