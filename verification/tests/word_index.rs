use code_spellcheck::dictionary::{Command, Rule};
use code_spellcheck::trie::{LoadError, Trie, TrieOptions};

fn rules_of(words: &[&str]) -> Vec<Rule> {
    words.iter().map(|w| Rule::Allow(w.to_string())).collect()
}

// Rule compilation: a disallow shadows an allow, and words after the
// case-sensitive command keep their case.
#[test]
fn rule_compilation_with_commands() {
    let rules = vec![
        Rule::Allow("foo".to_string()),
        Rule::Allow("Bar".to_string()),
        Rule::Disallow("baz".to_string()),
        Rule::Command(Command::CaseSensitive),
        Rule::Allow("QUX".to_string()),
    ];
    let trie = Trie::from_rules(&rules);
    assert!(trie.contains("foo"));
    assert!(trie.contains("Bar"));
    assert!(!trie.contains("bar"));
    assert!(!trie.contains("baz"));
    assert!(trie.contains("QUX"));
    assert!(trie.options().case_sensitive);
}

#[test]
fn disallow_wins_in_either_order() {
    let rules = vec![
        Rule::Disallow("late".to_string()),
        Rule::Allow("late".to_string()),
        Rule::Allow("fine".to_string()),
    ];
    let trie = Trie::from_rules(&rules);
    assert!(!trie.contains("late"));
    assert!(trie.contains("fine"));
}

#[test]
fn case_insensitive_folds_words_and_queries() {
    let rules = vec![Rule::Allow("Mixed".to_string())];
    let trie = Trie::from_rules(&rules);
    assert!(trie.contains("mixed"));
    assert!(trie.contains("MIXED"));
    assert_eq!(trie.to_vec(), vec!["mixed"]);
}

// Cache round-trip: dumping and reloading keeps the words and the options.
#[test]
fn dump_load_round_trip() {
    let rules = vec![
        Rule::Allow("alpha".to_string()),
        Rule::Allow("beta".to_string()),
        Rule::Disallow("gamma".to_string()),
        Rule::Command(Command::Cache(false)),
    ];
    let trie = Trie::from_rules(&rules);
    let data = trie.dump();
    let back = Trie::load(data.as_slice()).unwrap();
    assert_eq!(back.to_vec(), trie.to_vec());
    assert_eq!(back.to_vec(), vec!["alpha", "beta"]);
    assert_eq!(back.options(), trie.options());
    assert_eq!(
        back.options(),
        TrieOptions { cache: false, case_sensitive: false }
    );
    let again = trie.reload();
    assert_eq!(again.to_vec(), trie.to_vec());
}

#[test]
fn load_rejects_short_or_marred_frames() {
    assert!(matches!(Trie::load(&[]), Err(LoadError::Frame)));
    assert!(matches!(Trie::load(&[2, 0]), Err(LoadError::Frame)));
    assert!(matches!(Trie::load(&[1, 0, 9, 9, 9]), Err(LoadError::Data)));
}

#[test]
fn enumeration_is_sorted_and_allow_only() {
    let rules = vec![
        Rule::Allow("pear".to_string()),
        Rule::Allow("apple".to_string()),
        Rule::Disallow("plum".to_string()),
    ];
    let trie = Trie::from_rules(&rules);
    assert_eq!(trie.to_vec(), vec!["apple", "pear"]);
}

#[test]
fn fuzzy_and_check_find_near_words() {
    let trie = Trie::from_rules(&rules_of(&["hello", "help", "world"]));
    let near = trie.fuzzy("hella", 1).unwrap();
    assert_eq!(near, vec!["hello"]);
    let best = trie.check("hllo").unwrap();
    assert_eq!(best, Some("hello".to_string()));
    let none = trie.check("zzzzz").unwrap();
    assert_eq!(none, None);
}

#[test]
fn empty_index_contains_nothing() {
    let trie = Trie::new();
    assert!(!trie.contains(""));
    assert!(!trie.contains("a"));
    assert_eq!(trie.to_vec(), Vec::<String>::new());
}

#[test]
fn hash_rendering_matches_reference_renderer() {
    let h = code_spellcheck::hash::content_hash_hex(&[]);
    assert_eq!(h, blake3::hash(&[]).to_hex().to_string());
    assert_eq!(h.len(), 64);
    let h2 = code_spellcheck::hash::content_hash_hex(b"abc");
    assert_eq!(h2, blake3::hash(b"abc").to_hex().to_string());
    assert_ne!(h2, h);
}

#[test]
fn dir_hash_folds_per_file_digests() {
    let a = b"one".to_vec();
    let b = b"two".to_vec();
    let h1 = code_spellcheck::hash::dir_hash_hex(&vec![a.clone(), b.clone()]);
    let h2 = code_spellcheck::hash::dir_hash_hex(&vec![b, a]);
    assert_eq!(h1.len(), 64);
    assert_ne!(h1, h2);
}

// A stored map whose keys are not UTF-8 is rejected at load, so every
// word-index the library hands out enumerates cleanly.
#[test]
fn load_rejects_non_utf8_keys() {
    let raw = fst::Map::from_iter(vec![(vec![0xffu8, 0xfe], 0u64)]).unwrap();
    let mut framed = vec![1u8, 0u8];
    framed.extend_from_slice(raw.as_fst().as_bytes());
    assert!(matches!(
        Trie::load(&framed),
        Err(LoadError::Keys)
    ));
}

#[test]
fn file_bytes_must_be_text_and_well_compressed() {
    assert!(matches!(
        code_spellcheck::cspell::bytes_to_lines(vec![0xff, 0xfe, 0xfd], false),
        Err(code_spellcheck::cspell::DecodeError::NotText)
    ));
    assert!(matches!(
        code_spellcheck::cspell::bytes_to_lines(vec![1, 2, 3], true),
        Err(code_spellcheck::cspell::DecodeError::BadGzip)
    ));
}
