use code_spellcheck::cspell::{parse_body, parse_header, parse_stream, DecodeError, Header, Version};

fn lines(v: &[&str]) -> Vec<String> {
    v.iter().map(|s| s.to_string()).collect()
}

#[test]
fn test_parse_header() {
    let input = lines(&["TrieXv4", "base=10", "__DATA__"]);
    let (counter, header) = parse_header(&input).unwrap();
    assert_eq!(counter, 3);
    assert_eq!(header.version.to_u8(), 4);
    assert_eq!(header.base, 10);
}

#[test]
fn spec_test_parse_body_word_end() {
    let header = Header { version: Version("TrieXv4".to_string()), base: 10 };
    let input = lines(&["a$", "b$", "c$"]);
    let trie = parse_body(&input, &header).unwrap();
    assert!(trie.contains("a"));
    assert!(trie.contains("b"));
    assert!(trie.contains("c"));
    assert!(!trie.contains("d"));
    assert!(!trie.contains("ab"));
    assert!(!trie.contains("abc"));
}

#[test]
fn spec_test_parse_body_escape() {
    let header = Header { version: Version("TrieXv4".to_string()), base: 32 };
    let input = lines(&["a\\$", "b$", "c$", "<2def$"]);
    let trie = parse_body(&input, &header).unwrap();
    assert!(!trie.contains("a"));
    assert!(trie.contains("a$b"));
    assert!(trie.contains("a$c"));
    assert!(trie.contains("def"));
}

#[test]
fn spec_test_parse_body_remove() {
    let header = Header { version: Version("TrieXv4".to_string()), base: 32 };
    let input = lines(&["a$word$<3no$"]);
    let trie = parse_body(&input, &header).unwrap();
    let mut v = trie.to_vec();
    v.sort();
    assert_eq!(v, vec!["a", "no", "word"]);
}

#[test]
fn spec_test_parse_body_absolute_reference() {
    let header = Header { version: Version("TrieXv4".to_string()), base: 32 };
    let input = lines(&["apple$<<<n$<banb#1;"]);
    let trie = parse_body(&input, &header).unwrap();
    let mut v = trie.to_vec();
    v.sort();
    assert_eq!(v, vec!["an", "apple", "banbn", "banbpple"]);
}

#[test]
fn spec_test_parse_body_absolute_reference_2() {
    let header = Header { version: Version("TrieXv4".to_string()), base: 32 };
    let input = lines(&[r"\'cause$5sup$3tis$2wa#9;"]);
    let trie = parse_body(&input, &header).unwrap();
    let mut v = trie.to_vec();
    v.sort();
    assert_eq!(v, vec!["'cause", "'sup", "'tis", "'twas"]);
}

#[test]
fn spec_test_parse_body_absolute_reference_3() {
    let header = Header { version: Version("TrieXv4".to_string()), base: 32 };
    let input = lines(&[r"\'cause$5sup$3tis$2wa#9;<4\0th$2$\1st$2$\2nd$2$\3r#g;"]);
    let trie = parse_body(&input, &header).unwrap();
    let mut v = trie.to_vec();
    v.sort();
    assert_eq!(
        v,
        vec!["'cause", "'sup", "'tis", "'twas", "0", "0th", "1", "1st", "2", "2nd", "3rd"]
    );
}

// A reference that re-points the root's only edge back at the root makes a
// cycle; the decoder rejects it at the depth cap instead of enumerating
// forever.
#[test]
fn test_parse_body_absolute_reference_4() {
    let header = Header { version: Version("TrieXv4".to_string()), base: 32 };
    let input = lines(&["c$a#0;"]);
    let r = parse_body(&input, &header);
    assert!(matches!(r, Err(DecodeError::TooDeep)));
}

#[test]
fn test_parse_body_absolute_reference_5() {
    let header = Header { version: Version("TrieXv4".to_string()), base: 32 };
    let input = lines(&["ab$c#0;$"]);
    let trie = parse_body(&input, &header).unwrap();
    let mut v = trie.to_vec();
    v.sort();
    assert_eq!(v, vec!["ab", "ac"]);
}

#[test]
fn v4_test_parse_body_word_end() {
    let input = lines(&["a$", "b$", "c$"]);
    let trie = parse_stream(10, &input).unwrap();
    assert!(trie.contains("a"));
    assert!(trie.contains("b"));
    assert!(trie.contains("c"));
    assert!(!trie.contains("d"));
    assert!(!trie.contains("ab"));
    assert!(!trie.contains("abc"));
}

#[test]
fn v4_test_parse_body_escape() {
    let header = Header { version: Version("TrieXv4".to_string()), base: 10 };
    let input = lines(&["a\\$", "b$", "c$", "<2def$"]);
    let trie = parse_body(&input, &header).unwrap();
    assert!(!trie.contains("a"));
    assert!(trie.contains("a$b"));
    assert!(trie.contains("a$c"));
    assert!(trie.contains("def"));
}

#[test]
fn v4_test_parse_body_remove() {
    let header = Header { version: Version("TrieXv4".to_string()), base: 10 };
    let input = lines(&["a$word$<3no$"]);
    let trie = parse_body(&input, &header).unwrap();
    let mut v = trie.to_vec();
    v.sort();
    assert_eq!(v, vec!["a", "no", "word"]);
}

#[test]
fn v4_test_parse_body_absolute_reference() {
    let header = Header { version: Version("TrieXv4".to_string()), base: 10 };
    let input = lines(&["apple$<<<n$<banb#1;"]);
    let trie = parse_body(&input, &header).unwrap();
    let mut v = trie.to_vec();
    v.sort();
    assert_eq!(v, vec!["an", "apple", "banbn", "banbpple"]);
}

#[test]
fn v4_test_parse_body_absolute_reference_2() {
    let header = Header { version: Version("TrieXv4".to_string()), base: 32 };
    let input = lines(&[r"\'cause$5sup$3tis$2wa#9;<4\0th$2$"]);
    let trie = parse_body(&input, &header).unwrap();
    let mut v = trie.to_vec();
    v.sort();
    let mut expected = vec!["0", "0th", "'cause", "'sup", "'tis", "'twas"];
    expected.sort();
    assert_eq!(v, expected);
}

#[test]
fn v4_test_parse_body_absolute_reference_3() {
    let header = Header { version: Version("TrieXv4".to_string()), base: 32 };
    let input = lines(&[r"\'cause$5sup$3tis$2wa#9;<4\0th$2$\1st$2$\2nd$2$\3r#g;"]);
    let trie = parse_body(&input, &header).unwrap();
    let mut v = trie.to_vec();
    v.sort();
    assert_eq!(
        v,
        vec!["'cause", "'sup", "'tis", "'twas", "0", "0th", "1", "1st", "2", "2nd", "3rd"]
    );
}

#[test]
fn decoder_rejects_missing_sentinel() {
    let input = lines(&["TrieXv4", "base=10", "a$"]);
    assert!(matches!(
        code_spellcheck::cspell::parse_trie(&input),
        Err(DecodeError::MissingData)
    ));
}

#[test]
fn decoder_rejects_missing_version() {
    let input = lines(&["base=10", "__DATA__", "a$"]);
    assert!(matches!(
        code_spellcheck::cspell::parse_trie(&input),
        Err(DecodeError::MissingVersion)
    ));
}

#[test]
fn decoder_rejects_bad_base() {
    let input = lines(&["TrieXv4", "base=999", "__DATA__", "a$"]);
    assert!(matches!(
        code_spellcheck::cspell::parse_trie(&input),
        Err(DecodeError::BadBase)
    ));
}

#[test]
fn decoder_rejects_pop_count_one() {
    let header = Header { version: Version("TrieXv4".to_string()), base: 10 };
    let input = lines(&["ab$1c$"]);
    assert!(matches!(
        parse_body(&input, &header),
        Err(DecodeError::BadPopCount)
    ));
}

#[test]
fn decoder_rejects_pop_on_empty() {
    let header = Header { version: Version("TrieXv4".to_string()), base: 10 };
    let input = lines(&["a$<5b$"]);
    assert!(matches!(
        parse_body(&input, &header),
        Err(DecodeError::PopEmpty)
    ));
}

#[test]
fn decoder_rejects_out_of_range_reference() {
    let header = Header { version: Version("TrieXv4".to_string()), base: 10 };
    let input = lines(&["ab$c#7;"]);
    assert!(matches!(
        parse_body(&input, &header),
        Err(DecodeError::BadReference)
    ));
}

#[test]
fn trie_file_lines_plain_and_gzip() {
    let text = "TrieXv3\nbase=10\n__DATA__\nhi$\n";
    let plain = code_spellcheck::cspell::bytes_to_lines(text.as_bytes().to_vec(), false).unwrap();
    assert_eq!(plain, vec!["TrieXv3", "base=10", "__DATA__", "hi$"]);
    let (_, trie) = code_spellcheck::cspell::parse_trie(&plain).unwrap();
    assert_eq!(trie.to_vec(), vec!["hi"]);

    let mut enc = flate2::write::GzEncoder::new(Vec::new(), flate2::Compression::default());
    std::io::Write::write_all(&mut enc, text.as_bytes()).unwrap();
    let gz = enc.finish().unwrap();
    let unz = code_spellcheck::cspell::bytes_to_lines(gz, true).unwrap();
    assert_eq!(unz, plain);
}

#[test]
fn version_to_u8_reads_after_last_v() {
    assert_eq!(Version("TrieXv3".to_string()).to_u8(), 3);
    assert_eq!(Version("4".to_string()).to_u8(), 4);
}

// A decoded index folds its stored words when it is case-insensitive, so a
// decoded proper noun is reachable, and enumeration and membership agree.
#[test]
fn decoder_folds_words_for_case_insensitive_index() {
    let header = Header { version: Version("TrieXv4".to_string()), base: 10 };
    let input = lines(&["Az$2mix$"]);
    let trie = parse_body(&input, &header).unwrap();
    let mut v = trie.to_vec();
    v.sort();
    assert_eq!(v, vec!["az", "mix"]);
    assert!(trie.contains("Az"));
    assert!(trie.contains("az"));
    assert!(!trie.options().case_sensitive);
}

#[test]
fn decoder_keeps_case_for_case_sensitive_index() {
    let input = lines(&["TrieXv4", "base=10", "__DATA__", "Az$"]);
    let (_, trie) = code_spellcheck::cspell::parse_trie_with(&input, true).unwrap();
    assert_eq!(trie.to_vec(), vec!["Az"]);
    assert!(trie.contains("Az"));
    assert!(!trie.contains("az"));
    assert!(trie.options().case_sensitive);
}

#[test]
fn decoder_rejects_non_decimal_version() {
    let input = lines(&["TrieXvX", "base=10", "__DATA__", "a$"]);
    assert!(matches!(
        code_spellcheck::cspell::parse_trie(&input),
        Err(DecodeError::MissingVersion)
    ));
}
