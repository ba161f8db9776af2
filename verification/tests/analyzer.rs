use std::sync::Arc;

use code_spellcheck::code::{handle_node, handle_text, SyntaxNode};
use code_spellcheck::dictionary::Rule;
use code_spellcheck::multi_trie::MultiTrie;
use code_spellcheck::trie::Trie;

fn index_of(words: &[&str]) -> MultiTrie {
    let rules: Vec<Rule> = words.iter().map(|w| Rule::Allow(w.to_string())).collect();
    let mut mt = MultiTrie::new();
    mt.push(Arc::new(Trie::from_rules(&rules)));
    mt
}

// Identifier splitting: camel-case sub-words rescue a segment; the first
// failing segment is reported whole.
#[test]
fn identifier_splitter_cases() {
    let mt = index_of(&["hello", "world", "http", "client", "def", "abcd", "defg"]);
    assert_eq!(mt.handle_identifier("helloWorld"), None);
    assert_eq!(
        mt.handle_identifier("helloWrld"),
        Some("helloWrld".to_string())
    );
    assert_eq!(mt.handle_identifier("HTTP2Client"), None);
    assert_eq!(mt.handle_identifier("abc_123_def"), None);
    assert_eq!(mt.handle_identifier("abc_xyz_def"), None);
    assert_eq!(
        mt.handle_identifier("abcd_wxyz_defg"),
        Some("wxyz".to_string())
    );
}

#[test]
fn splitter_accepts_punctuation_and_digit_boundaries() {
    let mt = index_of(&["parse", "input", "fast"]);
    assert_eq!(mt.handle_identifier("parse(input)"), None);
    assert_eq!(mt.handle_identifier("parse2fast"), None);
    assert_eq!(
        mt.handle_identifier("parse-qqqq"),
        Some("qqqq".to_string())
    );
}

#[test]
fn union_checks_members_in_order() {
    let mut mt = MultiTrie::new();
    mt.push(Arc::new(Trie::from_rules(&vec![Rule::Allow(
        "early".to_string(),
    )])));
    mt.push(Arc::new(Trie::from_rules(&vec![Rule::Allow(
        "later".to_string(),
    )])));
    assert!(mt.contains("early"));
    assert!(mt.contains("later"));
    assert!(!mt.contains("never"));
}

// A disallow is local to its own word-index: it does not veto another
// member that allows the word.
#[test]
fn disallow_is_local_to_one_member() {
    let mut mt = MultiTrie::new();
    mt.push(Arc::new(Trie::from_rules(&vec![Rule::Disallow(
        "shared".to_string(),
    )])));
    mt.push(Arc::new(Trie::from_rules(&vec![Rule::Allow(
        "shared".to_string(),
    )])));
    assert!(mt.contains("shared"));
}

#[test]
fn suggestion_needs_enough_similarity() {
    let mt = index_of(&["hello"]);
    assert_eq!(mt.suggestion("hllo").unwrap(), Some("hello".to_string()));
    let short = index_of(&["ab"]);
    assert_eq!(short.suggestion("a").unwrap(), None);
    assert_eq!(mt.suggestion("zzzzzz").unwrap(), None);
}

#[test]
fn plain_text_walk_reports_positions() {
    let mt = index_of(&["hello", "world"]);
    let typos = handle_text(&mt, "helo wrld\nok hello\n");
    assert_eq!(typos.len(), 2);
    assert_eq!(typos[0].word, "helo");
    assert_eq!(typos[0].line, 1);
    assert_eq!(typos[0].column, 1);
    assert_eq!(typos[0].length, 4);
    assert_eq!(typos[1].word, "wrld");
    assert_eq!(typos[1].line, 1);
    assert_eq!(typos[1].column, 6);
}

#[test]
fn plain_text_walk_drops_adjacent_repeats() {
    let mt = index_of(&[]);
    let typos = handle_text(&mt, "badword badword\n");
    assert_eq!(typos.len(), 1);
    let t2 = handle_text(&mt, "badword\n");
    assert_eq!(t2.len(), 1);
}

#[test]
fn tree_walk_reports_named_leaves_only() {
    let mt = index_of(&["main"]);
    let leaf_good = SyntaxNode {
        named: true,
        row: 0,
        column: 3,
        start_byte: 3,
        end_byte: 7,
        text: "main".to_string(),
        children: Vec::new(),
    };
    let leaf_bad = SyntaxNode {
        named: true,
        row: 1,
        column: 0,
        start_byte: 8,
        end_byte: 14,
        text: "qwxyzt".to_string(),
        children: Vec::new(),
    };
    let anon = SyntaxNode {
        named: false,
        row: 1,
        column: 7,
        start_byte: 15,
        end_byte: 21,
        text: "zzyyxx".to_string(),
        children: Vec::new(),
    };
    let root = SyntaxNode {
        named: true,
        row: 0,
        column: 0,
        start_byte: 0,
        end_byte: 21,
        text: String::new(),
        children: vec![leaf_good, leaf_bad, anon],
    };
    let typos = handle_node(&mt, &root, "fn main\nqwxyzt zzyyxx");
    assert_eq!(typos.len(), 1);
    assert_eq!(typos[0].word, "qwxyzt");
    assert_eq!(typos[0].line, 2);
    assert_eq!(typos[0].column, 1);
    assert_eq!(typos[0].length, 6);
}
