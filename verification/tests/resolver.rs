use std::sync::Arc;

use code_spellcheck::args::ContextData;
use code_spellcheck::dictionary::{
    cache_hit, dict_cache_store_location, file_stem, globs_match, Command, DictCacheStore,
    DictError, DictSource, Dictionary, DictionaryConfig, PathProbe, Rule,
};
use code_spellcheck::pipeline::{
    check_files, get_multi_trie, should_load, DictionaryRegistry, MergedSettings,
};
use code_spellcheck::settings::Settings;
use code_spellcheck::trie::Trie;

fn lines(v: &[&str]) -> Vec<String> {
    v.iter().map(|s| s.to_string()).collect()
}

#[test]
fn command_strings() {
    assert_eq!(Command::from_str("case-sensitive"), Some(Command::CaseSensitive));
    assert_eq!(Command::from_str("cache:true"), Some(Command::Cache(true)));
    assert_eq!(Command::from_str("cache:false"), Some(Command::Cache(false)));
    assert_eq!(Command::from_str("cache:maybe"), None);
    assert_eq!(Command::from_str(""), None);
}

#[test]
fn rule_line_grammar() {
    let rules = code_spellcheck::dictionary::load_dictionary_format(&lines(&[
        "",
        "  plain  ",
        "+added",
        "!banned",
        "# just a note",
        "# csc:case-sensitive",
        "# csc:cache:false",
        "// eaten by the inline-glob cut",
        "slash/ignored-glob",
    ]));
    assert!(matches!(&rules[0], Rule::Comment(c) if c.is_empty()));
    assert!(matches!(&rules[1], Rule::Allow(w) if w == "plain"));
    assert!(matches!(&rules[2], Rule::Allow(w) if w == "added"));
    assert!(matches!(&rules[3], Rule::Disallow(w) if w == "banned"));
    assert!(matches!(&rules[4], Rule::Comment(c) if c == "just a note"));
    assert!(matches!(&rules[5], Rule::Command(Command::CaseSensitive)));
    assert!(matches!(&rules[6], Rule::Command(Command::Cache(false))));
    assert!(matches!(&rules[7], Rule::Comment(c) if c.is_empty()));
    assert!(matches!(&rules[8], Rule::Allow(w) if w == "slash"));
}

#[test]
fn compile_file_source() {
    let d = Dictionary::File("words.txt".to_string());
    let t = d
        .compile(DictSource::FileLines(lines(&["alpha", "!beta", "# note"])), None)
        .unwrap();
    assert!(t.contains("alpha"));
    assert!(!t.contains("beta"));
    assert!(t.options().cache);
}

#[test]
fn compile_directory_appends_trailing_commands() {
    let cfg = DictionaryConfig {
        name: "dirs".to_string(),
        description: None,
        paths: vec!["a.txt".to_string()],
        case_sensitive: true,
        no_cache: true,
        globs: Vec::new(),
    };
    let d = Dictionary::Directory("dicts".to_string());
    let t = d
        .compile(DictSource::DirectoryText(lines(&["Word"])), Some(&cfg))
        .unwrap();
    assert!(t.options().case_sensitive);
    assert!(!t.options().cache);
    assert!(t.contains("Word"));
    assert!(!t.contains("word"));
}

#[test]
fn compile_directory_trie_must_stand_alone() {
    let cfg = DictionaryConfig {
        name: "tried".to_string(),
        description: None,
        paths: vec!["a.trie".to_string(), "b.txt".to_string()],
        case_sensitive: false,
        no_cache: false,
        globs: Vec::new(),
    };
    let d = Dictionary::Directory("dicts".to_string());
    let body = lines(&["TrieXv4", "base=10", "__DATA__", "hi$"]);
    let r = d.compile(
        DictSource::DirectoryTrie { lines: body.clone(), path_count: 2 },
        Some(&cfg),
    );
    assert!(matches!(r, Err(DictError::MixedTrie)));
    let t = d
        .compile(DictSource::DirectoryTrie { lines: body, path_count: 1 }, Some(&cfg))
        .unwrap();
    assert_eq!(t.to_vec(), vec!["hi"]);
    assert!(t.options().cache);
}

#[test]
fn compile_rules_switches_caching_off() {
    let d = Dictionary::new_from_strings(&lines(&["hello", "!bye"]));
    let t = d.compile(DictSource::InMemory, None).unwrap();
    assert!(t.contains("hello"));
    assert!(!t.contains("bye"));
    assert!(!t.options().cache);
}

#[test]
fn compile_trie_dump_round_trips() {
    let base = Trie::from_rules(&vec![Rule::Allow("stored".to_string())]);
    let d = Dictionary::Trie("x.bin".to_string());
    let t = d.compile(DictSource::TrieDump(base.dump()), None).unwrap();
    assert_eq!(t.to_vec(), vec!["stored"]);
    let bad = d.compile(DictSource::TrieDump(vec![9, 9, 9]), None);
    assert!(matches!(bad, Err(DictError::BadDump(_))));
}

#[test]
fn path_probe_classifies_and_redirects() {
    let probe = PathProbe {
        exists: false,
        is_relative: true,
        store_exists: true,
        eff_is_dir: false,
        eff_is_file: true,
    };
    let d = Dictionary::new_with_path("en.txt".to_string(), &probe, "store").unwrap();
    assert!(matches!(d, Dictionary::File(p) if p == "store/en.txt"));
    let gone = PathProbe {
        exists: false,
        is_relative: true,
        store_exists: false,
        eff_is_dir: false,
        eff_is_file: false,
    };
    assert!(matches!(
        Dictionary::new_with_path("en.txt".to_string(), &gone, "store"),
        Err(DictError::PathMissing)
    ));
}

#[test]
fn names_come_from_stems_and_manifests() {
    let d = Dictionary::File("wordlists/en-US.txt".to_string());
    assert_eq!(d.get_names(None).unwrap(), vec!["en-US"]);
    assert_eq!(file_stem("a/b/c.tar.gz"), "c.tar");
    assert_eq!(file_stem(".hidden"), ".hidden");
    let cfg = DictionaryConfig {
        name: "fancy".to_string(),
        description: None,
        paths: Vec::new(),
        case_sensitive: false,
        no_cache: false,
        globs: Vec::new(),
    };
    let dir = Dictionary::Directory("d".to_string());
    assert_eq!(dir.get_names(Some(&cfg)).unwrap(), vec!["fancy"]);
    assert!(matches!(dir.get_names(None), Err(DictError::MissingConfig)));
}

#[test]
fn manifest_parsing_applies_defaults() {
    let data = br#"{"name":"terms","paths":["a.txt","b.txt"],"case_sensitive":true}"#;
    let cfg = DictionaryConfig::parse(data).unwrap();
    assert_eq!(cfg.name, "terms");
    assert_eq!(cfg.paths, vec!["a.txt", "b.txt"]);
    assert!(cfg.case_sensitive);
    assert!(!cfg.no_cache);
    assert!(cfg.globs.is_empty());
    assert!(DictionaryConfig::parse(br#"{"paths":[]}"#).is_none());
    assert!(DictionaryConfig::parse(b"not json").is_none());
}

#[test]
fn glob_patterns_scope_dictionaries() {
    let cfg = DictionaryConfig {
        name: "scoped".to_string(),
        description: None,
        paths: Vec::new(),
        case_sensitive: false,
        no_cache: false,
        globs: vec!["*.rs".to_string()],
    };
    let dir = Dictionary::Directory("d".to_string());
    let pats = dir.get_globs(Some(&cfg)).unwrap().unwrap();
    assert!(globs_match(&pats, "main.rs"));
    assert!(!globs_match(&pats, "main.py"));
    let bad = DictionaryConfig { globs: vec!["[bad".to_string()], ..cfg };
    assert!(matches!(dir.get_globs(Some(&bad)), Err(DictError::BadGlob)));
}

#[test]
fn cache_store_keeps_latest_hash() {
    let mut store = DictCacheStore::new();
    store.insert("p1".to_string(), "h1".to_string());
    store.insert("p2".to_string(), "h2".to_string());
    store.insert("p1".to_string(), "h3".to_string());
    assert_eq!(store.get("p1"), Some("h3".to_string()));
    assert_eq!(store.get("p2"), Some("h2".to_string()));
    assert_eq!(store.get("p9"), None);
    assert!(cache_hit(&store, "p1", "h3"));
    assert!(!cache_hit(&store, "p1", "h1"));
    assert!(!cache_hit(&store, "p9", "h1"));
    assert_eq!(dict_cache_store_location("/tmp/cache"), "/tmp/cache/cache.json");
}

#[test]
fn registry_and_union_assembly() {
    let mut reg = DictionaryRegistry::new();
    reg.insert(
        "base".to_string(),
        Arc::new(Trie::from_rules(&vec![Rule::Allow("alpha".to_string())])),
    );
    let custom = Arc::new(Trie::from_rules(&vec![Rule::Allow("extra".to_string())]));
    let mt = get_multi_trie(&lines(&["base"]), &reg, custom.clone()).unwrap();
    assert!(mt.contains("alpha"));
    assert!(mt.contains("extra"));
    assert!(get_multi_trie(&lines(&["missing"]), &reg, custom).is_err());
}

#[test]
fn loader_skips_unwanted_dictionaries() {
    assert!(should_load(&lines(&["en-US", "extra"]), &lines(&["extra"])));
    assert!(!should_load(&lines(&["de-DE"]), &lines(&["extra", "en-US"])));
    assert!(!should_load(&lines(&[]), &lines(&["extra"])));
}

#[test]
fn merged_settings_combine_names() {
    let args = ContextData {
        dir: ".".to_string(),
        verbose: true,
        extra_dictionaries: lines(&["mine"]),
        exclude: Vec::new(),
        max_depth: None,
        follow_symlinks: false,
        max_filesize: None,
        jobs: Some(2),
        settings: None,
        output: None,
    };
    let ms = MergedSettings::new(args, Settings::new());
    let base = ms.base_dictionaries();
    assert_eq!(base.len(), 6);
    assert_eq!(base[0], "extra");
    assert_eq!(base[5], "mine");
    assert!(ms.verbose());
    assert_eq!(ms.jobs(), Some(2));
}

// Pipeline progress: a non-empty queue yields results for every file.
#[test]
fn sequential_check_covers_every_file() {
    let mut mt = code_spellcheck::multi_trie::MultiTrie::new();
    mt.push(Arc::new(Trie::from_rules(&vec![Rule::Allow("good".to_string())])));
    let files = vec![
        ("a.txt".to_string(), "good qqqq\n".to_string()),
        ("b.txt".to_string(), "good\n".to_string()),
    ];
    let results = check_files(&files, &mt);
    assert_eq!(results.len(), 2);
    assert_eq!(results[0].file, "a.txt");
    assert_eq!(results[0].typos.len(), 1);
    assert_eq!(results[0].typos[0].word, "qqqq");
    assert!(results[1].typos.is_empty());
}

#[test]
fn path_probe_rejects_odd_paths() {
    let odd = PathProbe {
        exists: true,
        is_relative: false,
        store_exists: false,
        eff_is_dir: false,
        eff_is_file: false,
    };
    assert!(matches!(
        Dictionary::new_with_path("dev-null".to_string(), &odd, "store"),
        Err(DictError::PathInvalid)
    ));
}

#[test]
fn mismatched_source_is_refused() {
    let d = Dictionary::File("words.txt".to_string());
    assert!(matches!(
        d.compile(DictSource::InMemory, None),
        Err(DictError::SourceMismatch)
    ));
}

#[test]
fn cache_law_holds_at_runtime() {
    let (reloaded, fresh) = code_spellcheck::dictionary::cached_artifact_matches_fresh_compile(
        &lines(&["alpha", "!beta", "# csc:case-sensitive", "Gamma"]),
    );
    assert_eq!(reloaded.to_vec(), fresh.to_vec());
    assert_eq!(reloaded.options(), fresh.options());
    assert!(fresh.contains("Gamma"));
    assert!(!fresh.contains("gamma"));
}
