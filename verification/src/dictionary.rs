//! Dictionary rules, the rule-line grammar, dictionary sources and the
//! content-hashed cache bookkeeping.
use vstd::prelude::*;

use crate::text::{
    chars_of, chars_slice, chars_take, find_char, find_char_exec, has_prefix, chars_have_prefix,
    string_from_chars, trim_chars, trim_spec, str_eq_str,
};
use crate::trie::{
    Trie, TrieOptions, rules_options, rules_word_map, default_options, apply_command,
};

verus! {

/// A directive that changes how the surrounding word list is compiled.
#[derive(Clone, Copy, Debug, PartialEq, Eq, Structural)]
pub enum Command {
    CaseSensitive,
    Cache(bool),
}

/// What a command string means, if anything.
pub open spec fn command_of(s: Seq<char>) -> Option<Command> {
    if s == "case-sensitive"@ {
        Some(Command::CaseSensitive)
    } else if s == "cache:true"@ {
        Some(Command::Cache(true))
    } else if s == "cache:false"@ {
        Some(Command::Cache(false))
    } else {
        None
    }
}

impl Command {
    pub fn from_str(s: &str) -> (r: Option<Self>)
        ensures
            r == command_of(s@),
    {
        if str_eq_str(s, "case-sensitive") {
            Some(Self::CaseSensitive)
        } else if str_eq_str(s, "cache:true") {
            Some(Self::Cache(true))
        } else if str_eq_str(s, "cache:false") {
            Some(Self::Cache(false))
        } else {
            None
        }
    }
}

/// One line of a dictionary source.
#[derive(Clone, Debug)]
pub enum Rule {
    /// A rule that allows a word
    Allow(String),
    /// A rule that disallows a word
    Disallow(String),
    /// A command rule
    Command(Command),
    /// A comment
    Comment(String),
}

// ---------------------------------------------------------------------------
// The rule-line grammar
// ---------------------------------------------------------------------------

/// What one line means.
pub enum LineEffect {
    Blank,
    Note(Seq<char>),
    Directive(Command),
    Deny(Seq<char>),
    Grant(Seq<char>),
}

/// The part before an optional `/` (a CSpell-style inline glob is ignored).
pub open spec fn before_slash(l: Seq<char>) -> Seq<char> {
    let k = find_char(l, '/');
    if 0 <= k < l.len() {
        l.take(k)
    } else {
        l
    }
}

/// Drop every leading occurrence of the character.
pub open spec fn strip_marks(s: Seq<char>, c: char) -> Seq<char>
    decreases s.len(),
{
    if s.len() > 0 && s[0] == c {
        strip_marks(s.drop_first(), c)
    } else {
        s
    }
}

/// Drop every leading occurrence of the two-character marker.
pub open spec fn strip_pairs(s: Seq<char>, a: char, b: char) -> Seq<char>
    decreases s.len(),
{
    if s.len() >= 2 && s[0] == a && s[1] == b {
        strip_pairs(s.skip(2), a, b)
    } else {
        s
    }
}

/// The meaning of one rule line, per the line grammar.
pub open spec fn line_effect(l: Seq<char>) -> LineEffect {
    let t = trim_spec(before_slash(l));
    if t.len() == 0 {
        LineEffect::Blank
    } else if t[0] == '#' || (t.len() >= 2 && t[0] == '/' && t[1] == '/') {
        let c = trim_spec(strip_pairs(strip_marks(t, '#'), '/', '/'));
        if has_prefix(c, "csc:"@) {
            let cmd = trim_spec(c.skip(4));
            match command_of(cmd) {
                Some(d) => LineEffect::Directive(d),
                None => LineEffect::Note(c),
            }
        } else {
            LineEffect::Note(c)
        }
    } else if t[0] == '!' {
        LineEffect::Deny(trim_spec(strip_marks(t, '!')))
    } else if t[0] == '+' {
        LineEffect::Grant(trim_spec(strip_marks(t, '+')))
    } else {
        LineEffect::Grant(t)
    }
}

/// Drop every leading occurrence of the character (executable).
fn strip_marks_exec(s: &Vec<char>, c: char) -> (r: Vec<char>)
    ensures
        r@ == strip_marks(s@, c),
{
    let mut i: usize = 0;
    proof {
        assert(s@.skip(0) =~= s@);
    }
    while i < s.len() && s[i] == c
        invariant
            i <= s@.len(),
            forall|j: int| 0 <= j < i ==> s@[j] == c,
            strip_marks(s@, c) == strip_marks(s@.skip(i as int), c),
        decreases s.len() - i,
    {
        proof {
            assert(s@.skip(i as int)[0] == s@[i as int]);
            assert(s@.skip(i as int).drop_first() =~= s@.skip(i + 1));
        }
        i = i + 1;
    }
    proof {
        if i < s@.len() {
            assert(s@.skip(i as int)[0] == s@[i as int]);
            assert(strip_marks(s@.skip(i as int), c) == s@.skip(i as int));
        } else {
            assert(s@.skip(i as int) =~= Seq::<char>::empty());
        }
    }
    chars_slice(s, i)
}

fn strip_pairs_exec(s: &Vec<char>, a: char, b: char) -> (r: Vec<char>)
    ensures
        r@ == strip_pairs(s@, a, b),
{
    let mut i: usize = 0;
    proof {
        assert(s@.skip(0) =~= s@);
    }
    while i < s.len() && i + 1 < s.len() && s[i] == a && s[i + 1] == b
        invariant
            i <= s@.len(),
            strip_pairs(s@, a, b) == strip_pairs(s@.skip(i as int), a, b),
        decreases s.len() - i,
    {
        proof {
            assert(s@.skip(i as int)[0] == s@[i as int]);
            assert(s@.skip(i as int)[1] == s@[i + 1]);
            assert(s@.skip(i as int).skip(2) =~= s@.skip(i + 2));
        }
        i = i + 2;
    }
    proof {
        let rem = s@.skip(i as int);
        if i + 1 < s@.len() {
            assert(rem[0] == s@[i as int]);
            assert(rem[1] == s@[i + 1]);
            assert(strip_pairs(rem, a, b) == rem);
        } else {
            assert(rem.len() < 2);
            assert(strip_pairs(rem, a, b) == rem);
        }
    }
    chars_slice(s, i)
}

/// Parse one line of a dictionary source.
pub fn load_dictionary_line(line: &str) -> (r: Rule)
    ensures
        ({
            match line_effect(line@) {
                LineEffect::Blank => r matches Rule::Comment(c) && c@ == Seq::<char>::empty(),
                LineEffect::Note(n) => r matches Rule::Comment(c) && c@ == n,
                LineEffect::Directive(d) => r matches Rule::Command(c) && c == d,
                LineEffect::Deny(w) => r matches Rule::Disallow(x) && x@ == w,
                LineEffect::Grant(w) => r matches Rule::Allow(x) && x@ == w,
            }
        }),
{
    let cs = chars_of(line);
    let cut = match find_char_exec(&cs, '/') {
        Some(k) => chars_take(&cs, k),
        None => cs,
    };
    proof {
        assert(cut@ == before_slash(line@));
    }
    let t = trim_chars(&cut);
    if t.len() == 0 {
        let empty: Vec<char> = Vec::new();
        return Rule::Comment(string_from_chars(&empty));
    }
    let first = t[0];
    if first == '#' || (t.len() >= 2 && first == '/' && t[1] == '/') {
        let c = trim_chars(&strip_pairs_exec(&strip_marks_exec(&t, '#'), '/', '/'));
        let csc = chars_of("csc:");
        if chars_have_prefix(&c, &csc) {
            proof {
                reveal_strlit("csc:");
                assert(csc@.len() == 4);
            }
            let tail = trim_chars(&chars_slice(&c, 4));
            let cmd_s = string_from_chars(&tail);
            match Command::from_str(cmd_s.as_str()) {
                Some(cmd) => Rule::Command(cmd),
                None => Rule::Comment(string_from_chars(&c)),
            }
        } else {
            Rule::Comment(string_from_chars(&c))
        }
    } else if first == '!' {
        let w = trim_chars(&strip_marks_exec(&t, '!'));
        Rule::Disallow(string_from_chars(&w))
    } else if first == '+' {
        let w = trim_chars(&strip_marks_exec(&t, '+'));
        Rule::Allow(string_from_chars(&w))
    } else {
        Rule::Allow(string_from_chars(&t))
    }
}

/// The rules of a whole source, line by line.
pub fn load_dictionary_format(lines: &Vec<String>) -> (r: Vec<Rule>)
    ensures
        r@.len() == lines@.len(),
        forall|i: int|
            0 <= i < r@.len() ==> match line_effect((#[trigger] lines@[i])@) {
                LineEffect::Blank => r@[i] matches Rule::Comment(c) && c@ == Seq::<char>::empty(),
                LineEffect::Note(n) => r@[i] matches Rule::Comment(c) && c@ == n,
                LineEffect::Directive(d) => r@[i] matches Rule::Command(c) && c == d,
                LineEffect::Deny(w) => r@[i] matches Rule::Disallow(x) && x@ == w,
                LineEffect::Grant(w) => r@[i] matches Rule::Allow(x) && x@ == w,
            },
{
    let mut out: Vec<Rule> = Vec::new();
    let mut i: usize = 0;
    while i < lines.len()
        invariant
            i <= lines@.len(),
            out@.len() == i,
            forall|j: int|
                0 <= j < i ==> match line_effect((#[trigger] lines@[j])@) {
                    LineEffect::Blank => out@[j] matches Rule::Comment(c) && c@ == Seq::<
                        char,
                    >::empty(),
                    LineEffect::Note(n) => out@[j] matches Rule::Comment(c) && c@ == n,
                    LineEffect::Directive(d) => out@[j] matches Rule::Command(c) && c == d,
                    LineEffect::Deny(w) => out@[j] matches Rule::Disallow(x) && x@ == w,
                    LineEffect::Grant(w) => out@[j] matches Rule::Allow(x) && x@ == w,
                },
        decreases lines.len() - i,
    {
        let rule = load_dictionary_line(lines[i].as_str());
        out.push(rule);
        i = i + 1;
    }
    out
}

// ---------------------------------------------------------------------------
// Correspondence between parsed rules and line meanings
// ---------------------------------------------------------------------------

/// The word an effect contributes, with its status.
pub open spec fn effect_word(e: LineEffect) -> Option<(Seq<char>, u64)> {
    match e {
        LineEffect::Deny(w) => Some((w, crate::trie::STATUS_DISALLOW)),
        LineEffect::Grant(w) => Some((w, crate::trie::STATUS_ALLOW)),
        _ => None,
    }
}

pub open spec fn effect_command(e: LineEffect) -> Option<Command> {
    match e {
        LineEffect::Directive(d) => Some(d),
        _ => None,
    }
}

/// Two rules with the same meaning: same variant, same word characters.
pub open spec fn rule_like(a: Rule, b: Rule) -> bool {
    match (a, b) {
        (Rule::Allow(x), Rule::Allow(y)) => x@ == y@,
        (Rule::Disallow(x), Rule::Disallow(y)) => x@ == y@,
        (Rule::Command(c), Rule::Command(d)) => c == d,
        (Rule::Comment(x), Rule::Comment(y)) => x@ == y@,
        _ => false,
    }
}

/// Rules with the same meanings compile to the same options and word map.
pub proof fn lemma_like_rules_same(rules1: Seq<Rule>, rules2: Seq<Rule>, cs: bool)
    requires
        rules1.len() == rules2.len(),
        forall|i: int| 0 <= i < rules1.len() ==> rule_like(#[trigger] rules1[i], rules2[i]),
    ensures
        rules_options(rules1) == rules_options(rules2),
        rules_word_map(rules1, cs) == rules_word_map(rules2, cs),
{
    lemma_like_rules_options(default_options(), rules1, rules2);
    let m1 = rules_word_map(rules1, cs);
    let m2 = rules_word_map(rules2, cs);
    assert forall|w: Seq<char>| m1.dom().contains(w) implies m2.dom().contains(w) by {
        let i = choose|i: int|
            0 <= i < rules1.len() && match crate::trie::rule_word(#[trigger] rules1[i]) {
                Some(p) => crate::trie::folded(p.0, cs) == w,
                None => false,
            };
        assert(rule_like(rules1[i], rules2[i]));
    }
    assert forall|w: Seq<char>| m2.dom().contains(w) implies m1.dom().contains(w) by {
        let i = choose|i: int|
            0 <= i < rules2.len() && match crate::trie::rule_word(#[trigger] rules2[i]) {
                Some(p) => crate::trie::folded(p.0, cs) == w,
                None => false,
            };
        assert(rule_like(rules1[i], rules2[i]));
    }
    assert forall|w: Seq<char>| m1.dom().contains(w) implies m1[w] == m2[w] by {
        let dis1 = exists|i: int|
            0 <= i < rules1.len() && match crate::trie::rule_word(#[trigger] rules1[i]) {
                Some(p) => crate::trie::folded(p.0, cs) == w && p.1
                    == crate::trie::STATUS_DISALLOW,
                None => false,
            };
        let dis2 = exists|i: int|
            0 <= i < rules2.len() && match crate::trie::rule_word(#[trigger] rules2[i]) {
                Some(p) => crate::trie::folded(p.0, cs) == w && p.1
                    == crate::trie::STATUS_DISALLOW,
                None => false,
            };
        assert(dis1 ==> dis2) by {
            if dis1 {
                let i = choose|i: int|
                    0 <= i < rules1.len() && match crate::trie::rule_word(#[trigger] rules1[i]) {
                        Some(p) => crate::trie::folded(p.0, cs) == w && p.1
                            == crate::trie::STATUS_DISALLOW,
                        None => false,
                    };
                assert(rule_like(rules1[i], rules2[i]));
            }
        }
        assert(dis2 ==> dis1) by {
            if dis2 {
                let i = choose|i: int|
                    0 <= i < rules2.len() && match crate::trie::rule_word(#[trigger] rules2[i]) {
                        Some(p) => crate::trie::folded(p.0, cs) == w && p.1
                            == crate::trie::STATUS_DISALLOW,
                        None => false,
                    };
                assert(rule_like(rules1[i], rules2[i]));
            }
        }
    }
    assert(m1 =~= m2);
}

proof fn lemma_like_rules_options(o: TrieOptions, rules1: Seq<Rule>, rules2: Seq<Rule>)
    requires
        rules1.len() == rules2.len(),
        forall|i: int| 0 <= i < rules1.len() ==> rule_like(#[trigger] rules1[i], rules2[i]),
    ensures
        crate::trie::rules_options_from(o, rules1) == crate::trie::rules_options_from(o, rules2),
    decreases rules1.len(),
{
    if rules1.len() > 0 {
        assert forall|i: int| 0 <= i < rules1.drop_last().len() implies rule_like(
            #[trigger] rules1.drop_last()[i],
            rules2.drop_last()[i],
        ) by {
            assert(rules1.drop_last()[i] == rules1[i]);
            assert(rules2.drop_last()[i] == rules2[i]);
        }
        lemma_like_rules_options(o, rules1.drop_last(), rules2.drop_last());
        assert(rule_like(rules1.last(), rules2.last())) by {
            assert(rules1[rules1.len() - 1] == rules1.last());
        }
    }
}

/// Copy a rule list, keeping each rule's meaning.
pub fn clone_rules(rules: &Vec<Rule>) -> (r: Vec<Rule>)
    ensures
        r@.len() == rules@.len(),
        forall|i: int| 0 <= i < r@.len() ==> rule_like(#[trigger] rules@[i], r@[i]),
{
    let mut out: Vec<Rule> = Vec::new();
    let mut i: usize = 0;
    while i < rules.len()
        invariant
            i <= rules@.len(),
            out@.len() == i,
            forall|j: int| 0 <= j < i ==> rule_like(#[trigger] rules@[j], out@[j]),
        decreases rules.len() - i,
    {
        let c = match &rules[i] {
            Rule::Allow(w) => Rule::Allow(w.clone()),
            Rule::Disallow(w) => Rule::Disallow(w.clone()),
            Rule::Command(c) => Rule::Command(*c),
            Rule::Comment(t) => Rule::Comment(t.clone()),
        };
        out.push(c);
        i = i + 1;
    }
    out
}

// ---------------------------------------------------------------------------
// The directory manifest
// ---------------------------------------------------------------------------

/// The manifest of a directory-form dictionary (`csc-config.json`).
#[derive(Clone, Debug)]
pub struct DictionaryConfig {
    pub name: String,
    pub description: Option<String>,
    pub paths: Vec<String>,
    pub case_sensitive: bool,
    pub no_cache: bool,
    pub globs: Vec<String>,
}

/// The string field under the key of the JSON document the bytes hold;
/// `None` when the document does not parse, the key is absent, or its value
/// is not a string.  A function of the bytes and the key alone.
pub uninterp spec fn json_str_field_of(doc: Seq<u8>, key: Seq<char>) -> Option<Seq<char>>;

/// The boolean field under the key, in the same way.
pub uninterp spec fn json_bool_field_of(doc: Seq<u8>, key: Seq<char>) -> Option<bool>;

/// The string-array field under the key, in the same way; `None` also when
/// any element of the array is not a string.
pub uninterp spec fn json_str_list_of(doc: Seq<u8>, key: Seq<char>) -> Option<Seq<Seq<char>>>;

/// Relies on serde_json::from_slice, Value::get and Value::as_str: reads
/// the named string field out of the document bytes.
#[verifier::external_body]
fn json_str_field(data: &[u8], key: &str) -> (r: Option<String>)
    ensures
        match r {
            Some(s) => json_str_field_of(data@, key@) == Some(s@),
            None => json_str_field_of(data@, key@) is None,
        },
{
    serde_json::from_slice::<serde_json::Value>(data).ok().and_then(
        |v| v.get(key).and_then(|x| x.as_str()).map(|s| s.to_string()),
    )
}

/// Relies on serde_json::from_slice, Value::get and Value::as_bool: reads
/// the named boolean field out of the document bytes.
#[verifier::external_body]
fn json_bool_field(data: &[u8], key: &str) -> (r: Option<bool>)
    ensures
        r == json_bool_field_of(data@, key@),
{
    serde_json::from_slice::<serde_json::Value>(data).ok().and_then(
        |v| v.get(key).and_then(|x| x.as_bool()),
    )
}

/// Relies on serde_json::from_slice, Value::get, Value::as_array and
/// Value::as_str: reads the named string-array field out of the document
/// bytes, failing on any non-string element.
#[verifier::external_body]
fn json_str_list(data: &[u8], key: &str) -> (r: Option<Vec<String>>)
    ensures
        match r {
            Some(v) => json_str_list_of(data@, key@) == Some(
                v@.map_values(|s: String| s@),
            ),
            None => json_str_list_of(data@, key@) is None,
        },
{
    serde_json::from_slice::<serde_json::Value>(data).ok().and_then(
        |v| v.get(key).and_then(|x| x.as_array()).and_then(
            |a| a.iter().map(|e| e.as_str().map(|s| s.to_string())).collect(),
        ),
    )
}

impl DictionaryConfig {
    /// Read a manifest out of JSON bytes: `name` and `paths` are required,
    /// `description` is optional, and the remaining fields default.
    pub fn parse(data: &[u8]) -> (r: Option<DictionaryConfig>)
        ensures
            r is Some <==> json_str_field_of(data@, "name"@) is Some && json_str_list_of(
                data@,
                "paths"@,
            ) is Some,
            r matches Some(c) ==> {
                &&& json_str_field_of(data@, "name"@) == Some(c.name@)
                &&& json_str_list_of(data@, "paths"@) == Some(
                    c.paths@.map_values(|s: String| s@),
                )
                &&& match json_str_field_of(data@, "description"@) {
                    Some(d) => c.description matches Some(x) && x@ == d,
                    None => c.description is None,
                }
                &&& c.case_sensitive == match json_bool_field_of(data@, "case_sensitive"@) {
                    Some(b) => b,
                    None => false,
                }
                &&& c.no_cache == match json_bool_field_of(data@, "no_cache"@) {
                    Some(b) => b,
                    None => false,
                }
                &&& match json_str_list_of(data@, "globs"@) {
                    Some(g) => c.globs@.map_values(|s: String| s@) == g,
                    None => c.globs@.len() == 0,
                }
            },
    {
        let name = match json_str_field(data, "name") {
            Some(n) => n,
            None => {
                return None;
            },
        };
        let paths = match json_str_list(data, "paths") {
            Some(p) => p,
            None => {
                return None;
            },
        };
        let description = json_str_field(data, "description");
        let case_sensitive = match json_bool_field(data, "case_sensitive") {
            Some(b) => b,
            None => false,
        };
        let no_cache = match json_bool_field(data, "no_cache") {
            Some(b) => b,
            None => false,
        };
        let globs = match json_str_list(data, "globs") {
            Some(g) => g,
            None => Vec::new(),
        };
        Some(DictionaryConfig { name, description, paths, case_sensitive, no_cache, globs })
    }
}

// ---------------------------------------------------------------------------
// Glob patterns
// ---------------------------------------------------------------------------

#[verifier::external_type_specification]
#[verifier::external_body]
pub struct ExGlobPattern(glob::Pattern);

#[verifier::external_type_specification]
#[verifier::external_body]
pub struct ExGlobPatternError(glob::PatternError);

/// Whether the characters form a valid glob pattern.
pub uninterp spec fn glob_ok(pat: Seq<char>) -> bool;

/// The pattern text a compiled pattern was built from.
pub uninterp spec fn glob_source(p: glob::Pattern) -> Seq<char>;

/// Whether the path matches the pattern.
pub uninterp spec fn glob_match(pat: Seq<char>, path: Seq<char>) -> bool;

/// Relies on glob::Pattern::new: compiles a pattern, failing exactly on
/// invalid pattern syntax.
#[verifier::external_body]
fn glob_new(pattern: &str) -> (r: Result<glob::Pattern, glob::PatternError>)
    ensures
        r is Ok <==> glob_ok(pattern@),
        r is Ok ==> glob_source(r->Ok_0) == pattern@,
{
    glob::Pattern::new(pattern)
}

/// Relies on glob::Pattern::matches: whether a path matches is a function of
/// the pattern and the path alone.
#[verifier::external_body]
fn glob_matches(p: &glob::Pattern, path: &str) -> (r: bool)
    ensures
        r == glob_match(glob_source(*p), path@),
{
    p.matches(path)
}

/// Whether any of the patterns matches the path.
pub fn globs_match(patterns: &Vec<glob::Pattern>, path: &str) -> (r: bool)
    ensures
        r == exists|i: int|
            0 <= i < patterns@.len() && glob_match(glob_source(#[trigger] patterns@[i]), path@),
{
    let mut i: usize = 0;
    while i < patterns.len()
        invariant
            i <= patterns@.len(),
            forall|j: int|
                0 <= j < i ==> !glob_match(glob_source(#[trigger] patterns@[j]), path@),
        decreases patterns@.len() - i,
    {
        if glob_matches(&patterns[i], path) {
            return true;
        }
        i = i + 1;
    }
    false
}

// ---------------------------------------------------------------------------
// The on-disk cache store
// ---------------------------------------------------------------------------

/// The value stored under a key, from the first matching entry.
pub open spec fn store_lookup(es: Seq<(String, String)>, k: Seq<char>) -> Option<Seq<char>>
    decreases es.len(),
{
    if es.len() == 0 {
        None
    } else if es[0].0@ == k {
        Some(es[0].1@)
    } else {
        store_lookup(es.drop_first(), k)
    }
}

/// The `path hash -> content hash` store behind the cache directory.
#[derive(Clone, Debug)]
pub struct DictCacheStore {
    pub entries: Vec<(String, String)>,
}

impl DictCacheStore {
    pub fn new() -> (r: Self)
        ensures
            r.entries@.len() == 0,
    {
        DictCacheStore { entries: Vec::new() }
    }

    pub fn get(&self, key: &str) -> (r: Option<String>)
        ensures
            match r {
                Some(v) => store_lookup(self.entries@, key@) == Some(v@),
                None => store_lookup(self.entries@, key@) is None,
            },
    {
        let mut i: usize = 0;
        proof {
            assert(self.entries@.skip(0) =~= self.entries@);
        }
        while i < self.entries.len()
            invariant
                i <= self.entries@.len(),
                store_lookup(self.entries@, key@) == store_lookup(
                    self.entries@.skip(i as int),
                    key@,
                ),
            decreases self.entries@.len() - i,
        {
            proof {
                assert(self.entries@.skip(i as int)[0] == self.entries@[i as int]);
                assert(self.entries@.skip(i as int).drop_first() =~= self.entries@.skip(i + 1));
            }
            if str_eq_str(self.entries[i].0.as_str(), key) {
                return Some(self.entries[i].1.clone());
            }
            i = i + 1;
        }
        proof {
            assert(self.entries@.skip(i as int) =~= Seq::<(String, String)>::empty());
        }
        None
    }

    /// Record the content hash for a path hash, replacing an old entry.
    pub fn insert(&mut self, key: String, value: String)
        ensures
            forall|k2: Seq<char>|
                #[trigger] store_lookup(final(self).entries@, k2) == if k2 == key@ {
                    Some(value@)
                } else {
                    store_lookup(old(self).entries@, k2)
                },
    {
        let ghost es0 = self.entries@;
        let mut i: usize = 0;
        proof {
            assert(es0.skip(0) =~= es0);
        }
        while i < self.entries.len()
            invariant
                i <= self.entries@.len(),
                es0 == self.entries@,
                es0 == old(self).entries@,
                forall|j: int| 0 <= j < i ==> (#[trigger] es0[j]).0@ != key@,
            decreases self.entries@.len() - i,
        {
            if str_eq_str(self.entries[i].0.as_str(), key.as_str()) {
                let ghost kview = key@;
                let ghost vview = value@;
                let _old = self.entries.remove(i);
                self.entries.insert(i, (key, value));
                proof {
                    let es1 = self.entries@;
                    assert forall|n: int| 0 <= n < es1.len() implies #[trigger] es1[n] == es0.update(
                        i as int,
                        es1[i as int],
                    )[n] by {
                        if n < i {
                        } else if n > i {
                            assert(es1[n] == es0.remove(i as int)[n - 1]);
                            assert(es0.remove(i as int)[n - 1] == es0[n]);
                        }
                    }
                    assert(es1 =~= es0.update(i as int, es1[i as int]));
                    assert(es1[i as int].0@ == kview);
                    assert(es1[i as int].1@ == vview);
                    assert forall|k2: Seq<char>| true implies #[trigger] store_lookup(es1, k2)
                        == if k2 == kview {
                        Some(vview)
                    } else {
                        store_lookup(es0, k2)
                    } by {
                        lemma_store_lookup_update(es0, es1, i as int, kview, vview, k2);
                    }
                }
                return ;
            }
            i = i + 1;
        }
        let ghost kview = key@;
        let ghost vview = value@;
        self.entries.push((key, value));
        proof {
            let es1 = self.entries@;
            assert(es1 =~= es0.push(es1[es0.len() as int]));
            assert(es1[es0.len() as int].0@ == kview);
            assert(es1[es0.len() as int].1@ == vview);
            assert forall|k2: Seq<char>| true implies #[trigger] store_lookup(es1, k2) == if k2
                == kview {
                Some(vview)
            } else {
                store_lookup(es0, k2)
            } by {
                lemma_store_lookup_push(es0, es1[es0.len() as int], k2);
                if k2 == kview {
                    lemma_store_lookup_absent(es0, k2);
                }
            }
        }
    }
}

/// Looking a key up after a push checks the old entries first.
proof fn lemma_store_lookup_push(es: Seq<(String, String)>, p: (String, String), k: Seq<char>)
    ensures
        store_lookup(es.push(p), k) == match store_lookup(es, k) {
            Some(v) => Some(v),
            None => if p.0@ == k {
                Some(p.1@)
            } else {
                None
            },
        },
    decreases es.len(),
{
    if es.len() == 0 {
        assert(es.push(p)[0] == p);
        assert(es.push(p).drop_first() =~= Seq::<(String, String)>::empty());
        assert(store_lookup(Seq::<(String, String)>::empty(), k) is None);
        if p.0@ == k {
            assert(store_lookup(es.push(p), k) == Some(p.1@));
        } else {
            assert(store_lookup(es.push(p), k) == store_lookup(
                es.push(p).drop_first(),
                k,
            ));
        }
    } else {
        assert(es.push(p)[0] == es[0]);
        assert(es.push(p).drop_first() =~= es.drop_first().push(p));
        lemma_store_lookup_push(es.drop_first(), p, k);
    }
}

/// A key that matches no entry looks up to nothing.
proof fn lemma_store_lookup_absent(es: Seq<(String, String)>, k: Seq<char>)
    requires
        forall|j: int| 0 <= j < es.len() ==> (#[trigger] es[j]).0@ != k,
    ensures
        store_lookup(es, k) is None,
    decreases es.len(),
{
    if es.len() > 0 {
        assert forall|j: int| 0 <= j < es.drop_first().len() implies (
        #[trigger] es.drop_first()[j]).0@ != k by {
            assert(es.drop_first()[j] == es[j + 1]);
        }
        lemma_store_lookup_absent(es.drop_first(), k);
    }
}

/// Replacing the first matching entry rewrites that key's value alone.
proof fn lemma_store_lookup_update(
    es0: Seq<(String, String)>,
    es1: Seq<(String, String)>,
    i: int,
    key: Seq<char>,
    value: Seq<char>,
    k2: Seq<char>,
)
    requires
        0 <= i < es0.len(),
        es1.len() == es0.len(),
        forall|j: int| 0 <= j < i ==> (#[trigger] es0[j]).0@ != key,
        forall|j: int| 0 <= j < es1.len() && j != i ==> es1[j] == es0[j],
        es1[i].0@ == key,
        es1[i].1@ == value,
        es0[i].0@ == key,
    ensures
        store_lookup(es1, k2) == if k2 == key {
            Some(value)
        } else {
            store_lookup(es0, k2)
        },
    decreases i,
{
    if i == 0 {
        if k2 != key {
            assert(es1.drop_first() =~= es0.drop_first());
        }
    } else {
        assert(es1[0] == es0[0]);
        if es0[0].0@ == k2 {
        } else {
            assert forall|j: int| 0 <= j < i - 1 implies (#[trigger] es0.drop_first()[j]).0@
                != key by {
                assert(es0.drop_first()[j] == es0[j + 1]);
            }
            assert forall|j: int|
                0 <= j < es1.drop_first().len() && j != i - 1 implies es1.drop_first()[j]
                == es0.drop_first()[j] by {
                assert(es1.drop_first()[j] == es1[j + 1]);
                assert(es0.drop_first()[j] == es0[j + 1]);
            }
            assert(es1.drop_first()[i - 1] == es1[i]);
            assert(es0.drop_first()[i - 1] == es0[i]);
            lemma_store_lookup_update(
                es0.drop_first(),
                es1.drop_first(),
                i - 1,
                key,
                value,
                k2,
            );
        }
    }
}

/// Whether the stored content hash for the path matches the current one.
pub fn cache_hit(store: &DictCacheStore, path_hash: &str, current_hash: &str) -> (r: bool)
    ensures
        r == (store_lookup(store.entries@, path_hash@) == Some(current_hash@)),
{
    match store.get(path_hash) {
        Some(stored) => str_eq_str(stored.as_str(), current_hash),
        None => false,
    }
}

/// The store file inside the cache directory.
pub fn dict_cache_store_location(cache_dir: &str) -> (r: String)
    ensures
        r@ == cache_dir@ + "/cache.json"@,
{
    crate::text::str_concat(cache_dir, "/cache.json")
}

// ---------------------------------------------------------------------------
// Path stems for dictionary names
// ---------------------------------------------------------------------------

/// The text after the last occurrence of the character, or the whole string.
pub open spec fn after_last(s: Seq<char>, c: char) -> Seq<char>
    decreases s.len(),
{
    if s.len() == 0 {
        s
    } else if s.last() == c {
        Seq::empty()
    } else {
        after_last(s.drop_last(), c).push(s.last())
    }
}

/// The file-name part of a path: the text after the last slash.
pub open spec fn file_name_of(p: Seq<char>) -> Seq<char> {
    after_last(p, '/')
}

/// The stem of a file name: the text before the last dot, except that a
/// name whose only dot leads keeps it.
pub open spec fn stem_of(n: Seq<char>) -> Seq<char> {
    if n.len() <= 1 {
        n
    } else if find_char(n.skip(1), '.') < 0 {
        n
    } else {
        n.take(n.len() - after_last(n, '.').len() - 1)
    }
}

fn after_last_exec(v: &Vec<char>, c: char) -> (r: Vec<char>)
    ensures
        r@ == after_last(v@, c),
        forall|k: int| 0 <= k < v@.len() && v@[k] == c ==> r@.len() < v@.len() - k,
{
    let mut start: usize = 0;
    let mut i: usize = 0;
    proof {
        assert(v@.take(0) =~= Seq::<char>::empty());
        assert(v@.take(0).skip(0) =~= after_last(v@.take(0), c));
    }
    while i < v.len()
        invariant
            start <= i <= v.len(),
            after_last(v@.take(i as int), c) == v@.take(i as int).skip(start as int),
            forall|k: int| 0 <= k < i && v@[k] == c ==> k < start,
        decreases v.len() - i,
    {
        proof {
            assert(v@.take(i + 1).drop_last() =~= v@.take(i as int));
            assert(v@.take(i + 1).last() == v@[i as int]);
        }
        if v[i] == c {
            start = i + 1;
            proof {
                assert(after_last(v@.take(i + 1), c) =~= v@.take(i + 1).skip(start as int));
            }
        } else {
            proof {
                assert(after_last(v@.take(i + 1), c) =~= v@.take(i + 1).skip(start as int));
            }
        }
        i = i + 1;
    }
    proof {
        assert(v@.take(v@.len() as int) =~= v@);
    }
    chars_slice(v, start)
}

/// The stem of the file a path points at.
pub fn file_stem(path: &str) -> (r: String)
    ensures
        r@ == stem_of(file_name_of(path@)),
{
    let cs = chars_of(path);
    let name = after_last_exec(&cs, '/');
    if name.len() <= 1 {
        return string_from_chars(&name);
    }
    let rest = chars_slice(&name, 1);
    match find_char_exec(&rest, '.') {
        None => string_from_chars(&name),
        Some(_) => {
            let tail = after_last_exec(&name, '.');
            proof {
                crate::text::lemma_find_char(rest@, '.');
                let k = find_char(rest@, '.');
                assert(rest@[k] == name@[k + 1]);
                assert(tail@.len() < name@.len() - (k + 1));
            }
            let cut: usize = name.len() - tail.len() - 1;
            let stem = chars_take(&name, cut);
            string_from_chars(&stem)
        },
    }
}

// ---------------------------------------------------------------------------
// The meaning of a whole source, and the compiler over sources
// ---------------------------------------------------------------------------

pub open spec fn effects_of(lines: Seq<Seq<char>>) -> Seq<LineEffect> {
    lines.map_values(|l: Seq<char>| line_effect(l))
}

pub open spec fn effects_options_from(o: TrieOptions, es: Seq<LineEffect>) -> TrieOptions
    decreases es.len(),
{
    if es.len() == 0 {
        o
    } else {
        match effect_command(es.last()) {
            Some(c) => apply_command(effects_options_from(o, es.drop_last()), c),
            None => effects_options_from(o, es.drop_last()),
        }
    }
}

pub open spec fn effects_options(es: Seq<LineEffect>) -> TrieOptions {
    effects_options_from(default_options(), es)
}

pub open spec fn effects_word_map(es: Seq<LineEffect>, cs: bool) -> Map<Seq<char>, u64> {
    Map::new(
        |w: Seq<char>|
            exists|i: int|
                0 <= i < es.len() && match effect_word(#[trigger] es[i]) {
                    Some(p) => crate::trie::folded(p.0, cs) == w,
                    None => false,
                },
        |w: Seq<char>|
            if exists|i: int|
                0 <= i < es.len() && match effect_word(#[trigger] es[i]) {
                    Some(p) => crate::trie::folded(p.0, cs) == w && p.1
                        == crate::trie::STATUS_DISALLOW,
                    None => false,
                } {
                crate::trie::STATUS_DISALLOW
            } else {
                crate::trie::STATUS_ALLOW
            },
    )
}

/// Whether a rule realizes a line meaning.
pub open spec fn rule_matches_effect(r: Rule, e: LineEffect) -> bool {
    match e {
        LineEffect::Blank => r matches Rule::Comment(c) && c@ == Seq::<char>::empty(),
        LineEffect::Note(n) => r matches Rule::Comment(c) && c@ == n,
        LineEffect::Directive(d) => r matches Rule::Command(c) && c == d,
        LineEffect::Deny(w) => r matches Rule::Disallow(x) && x@ == w,
        LineEffect::Grant(w) => r matches Rule::Allow(x) && x@ == w,
    }
}

/// Rules that realize the line meanings compile to the same options and the
/// same word map as the meanings themselves.
pub proof fn lemma_rules_realize_effects(rules: Seq<Rule>, es: Seq<LineEffect>, cs: bool)
    requires
        rules.len() == es.len(),
        forall|i: int| 0 <= i < rules.len() ==> rule_matches_effect(#[trigger] rules[i], es[i]),
    ensures
        rules_options(rules) == effects_options(es),
        rules_word_map(rules, cs) == effects_word_map(es, cs),
{
    lemma_rules_realize_options(default_options(), rules, es);
    let m1 = rules_word_map(rules, cs);
    let m2 = effects_word_map(es, cs);
    assert forall|w: Seq<char>| m1.dom().contains(w) implies m2.dom().contains(w) by {
        let i = choose|i: int|
            0 <= i < rules.len() && match crate::trie::rule_word(#[trigger] rules[i]) {
                Some(p) => crate::trie::folded(p.0, cs) == w,
                None => false,
            };
        assert(rule_matches_effect(rules[i], es[i]));
    }
    assert forall|w: Seq<char>| m2.dom().contains(w) implies m1.dom().contains(w) by {
        let i = choose|i: int|
            0 <= i < es.len() && match effect_word(#[trigger] es[i]) {
                Some(p) => crate::trie::folded(p.0, cs) == w,
                None => false,
            };
        assert(rule_matches_effect(rules[i], es[i]));
    }
    assert forall|w: Seq<char>| m1.dom().contains(w) implies m1[w] == m2[w] by {
        let dis1 = exists|i: int|
            0 <= i < rules.len() && match crate::trie::rule_word(#[trigger] rules[i]) {
                Some(p) => crate::trie::folded(p.0, cs) == w && p.1
                    == crate::trie::STATUS_DISALLOW,
                None => false,
            };
        let dis2 = exists|i: int|
            0 <= i < es.len() && match effect_word(#[trigger] es[i]) {
                Some(p) => crate::trie::folded(p.0, cs) == w && p.1
                    == crate::trie::STATUS_DISALLOW,
                None => false,
            };
        assert(dis1 ==> dis2) by {
            if dis1 {
                let i = choose|i: int|
                    0 <= i < rules.len() && match crate::trie::rule_word(#[trigger] rules[i]) {
                        Some(p) => crate::trie::folded(p.0, cs) == w && p.1
                            == crate::trie::STATUS_DISALLOW,
                        None => false,
                    };
                assert(rule_matches_effect(rules[i], es[i]));
            }
        }
        assert(dis2 ==> dis1) by {
            if dis2 {
                let i = choose|i: int|
                    0 <= i < es.len() && match effect_word(#[trigger] es[i]) {
                        Some(p) => crate::trie::folded(p.0, cs) == w && p.1
                            == crate::trie::STATUS_DISALLOW,
                        None => false,
                    };
                assert(rule_matches_effect(rules[i], es[i]));
            }
        }
    }
    assert(m1 =~= m2);
}

proof fn lemma_rules_realize_options(o: TrieOptions, rules: Seq<Rule>, es: Seq<LineEffect>)
    requires
        rules.len() == es.len(),
        forall|i: int| 0 <= i < rules.len() ==> rule_matches_effect(#[trigger] rules[i], es[i]),
    ensures
        crate::trie::rules_options_from(o, rules) == effects_options_from(o, es),
    decreases rules.len(),
{
    if rules.len() > 0 {
        assert forall|i: int| 0 <= i < rules.drop_last().len() implies rule_matches_effect(
            #[trigger] rules.drop_last()[i],
            es.drop_last()[i],
        ) by {
            assert(rules.drop_last()[i] == rules[i]);
            assert(es.drop_last()[i] == es[i]);
        }
        lemma_rules_realize_options(o, rules.drop_last(), es.drop_last());
        assert(rule_matches_effect(rules[rules.len() - 1], es[es.len() - 1]));
    }
}

/// Appending a command leaves the word map unchanged.
pub proof fn lemma_word_map_append_command(rules: Seq<Rule>, c: Command, cs: bool)
    ensures
        rules_word_map(rules.push(Rule::Command(c)), cs) == rules_word_map(rules, cs),
{
    let whole = rules.push(Rule::Command(c));
    crate::trie::lemma_rules_word_map_step(whole, rules.len() as int, cs);
    assert(whole.take(rules.len() as int) =~= rules);
    assert(whole.take(rules.len() as int + 1) =~= whole);
}

/// The options a file source compiles to.
pub open spec fn file_options(lines: Seq<Seq<char>>) -> TrieOptions {
    effects_options(effects_of(lines))
}

/// The word map a file source compiles to.
pub open spec fn file_word_map(lines: Seq<Seq<char>>) -> Map<Seq<char>, u64> {
    effects_word_map(effects_of(lines), file_options(lines).case_sensitive)
}

/// Compile the rules of a file source into a word-index.
pub fn compile_file_lines(lines: &Vec<String>) -> (t: Trie)
    ensures
        t.opts() == file_options(lines@.map_values(|l: String| l@)),
        t.words() == file_word_map(lines@.map_values(|l: String| l@)),
{
    let rules = load_dictionary_format(lines);
    let t = Trie::from_rules(&rules);
    proof {
        let lv = lines@.map_values(|l: String| l@);
        let es = effects_of(lv);
        assert(rules@.len() == es.len());
        assert forall|i: int| 0 <= i < rules@.len() implies rule_matches_effect(
            #[trigger] rules@[i],
            es[i],
        ) by {
            assert(es[i] == line_effect(lv[i]));
            assert(lv[i] == lines@[i]@);
        }
        lemma_rules_realize_effects(rules@, es, rules_options(rules@).case_sensitive);
        lemma_rules_realize_effects(rules@, es, effects_options(es).case_sensitive);
    }
    t
}

/// Why a dictionary could not be described or compiled.
#[derive(Clone, Copy, Debug, PartialEq, Eq, Structural)]
pub enum DictError {
    /// The dictionary path does not exist.
    PathMissing,
    /// The path is neither a file nor a directory.
    PathInvalid,
    /// A directory source without its manifest.
    MissingConfig,
    /// A trie file mixed with other paths in one manifest.
    MixedTrie,
    /// A glob pattern did not compile.
    BadGlob,
    /// The trie stream did not decode.
    Decode(crate::cspell::DecodeError),
    /// The stored word-index did not load.
    BadDump(crate::trie::LoadError),
    /// The data handed in does not fit the dictionary variant.
    SourceMismatch,
}

/// What the filesystem said about a dictionary path; `eff_` fields describe
/// the effective path after the word-list store redirect.
#[derive(Clone, Copy, Debug, PartialEq, Eq, Structural)]
pub struct PathProbe {
    pub exists: bool,
    pub is_relative: bool,
    pub store_exists: bool,
    pub eff_is_dir: bool,
    pub eff_is_file: bool,
}

/// The compile-time description of a word-index source.
#[derive(Clone, Debug)]
pub enum Dictionary {
    /// A dictionary that is loaded from a file
    File(String),
    /// A dictionary that is loaded from a directory
    Directory(String),
    /// A cspell trie
    Trie(String),
    /// Custom
    Custom { definition: crate::settings::CustomDictionaryDefinition, root: String },
    /// A dictionary that is loaded from a vector of rules
    Rules(Vec<Rule>),
}

/// The bytes and lines a dictionary source compiles from; reading them from
/// disk is the surrounding program's part.
pub enum DictSource {
    /// The lines of a rule file (File and Custom sources).
    FileLines(Vec<String>),
    /// The lines of every text file of a directory source, in manifest order.
    DirectoryText(Vec<String>),
    /// The lines of the one trie file of a directory source.
    DirectoryTrie { lines: Vec<String>, path_count: usize },
    /// The stored bytes of a dumped word-index.
    TrieDump(Vec<u8>),
    /// Nothing: the rules are in the dictionary value itself.
    InMemory,
}

/// The options a directory source compiles to: the file options with the
/// manifest's trailing commands applied.
pub open spec fn dir_options(lines: Seq<Seq<char>>, cs: bool, no_cache: bool) -> TrieOptions {
    let base = if cs {
        apply_command(effects_options(effects_of(lines)), Command::CaseSensitive)
    } else {
        effects_options(effects_of(lines))
    };
    apply_command(base, Command::Cache(!no_cache))
}

impl Dictionary {
    /// Classify a path, redirecting a missing relative path into the
    /// word-list store.
    pub fn new_with_path(path: String, probe: &PathProbe, store_dir: &str) -> (r: Result<
        Dictionary,
        DictError,
    >)
        ensures
            ({
                let redirect = !probe.exists && probe.is_relative && probe.store_exists;
                let eff = if redirect {
                    store_dir@ + "/"@ + path@
                } else {
                    path@
                };
                if !probe.exists && !redirect {
                    r == Result::<Dictionary, DictError>::Err(DictError::PathMissing)
                } else if probe.eff_is_dir {
                    r matches Result::Ok(d) && d matches Dictionary::Directory(p) && p@ == eff
                } else if probe.eff_is_file {
                    r matches Result::Ok(d) && d matches Dictionary::File(p) && p@ == eff
                } else {
                    r == Result::<Dictionary, DictError>::Err(DictError::PathInvalid)
                }
            }),
    {
        let redirect = !probe.exists && probe.is_relative && probe.store_exists;
        let eff = if redirect {
            let joined = crate::text::str_concat(store_dir, "/");
            crate::text::str_concat(joined.as_str(), path.as_str())
        } else {
            path
        };
        if !probe.exists && !redirect {
            Err(DictError::PathMissing)
        } else if probe.eff_is_dir {
            Ok(Dictionary::Directory(eff))
        } else if probe.eff_is_file {
            Ok(Dictionary::File(eff))
        } else {
            Err(DictError::PathInvalid)
        }
    }

    pub fn new_custom(
        definition: crate::settings::CustomDictionaryDefinition,
        root: String,
    ) -> (r: Self)
        ensures
            r matches Dictionary::Custom { definition: d, root: rt } && d == definition && rt@
                == root@,
    {
        Self::Custom { definition, root }
    }

    pub fn new_with_rules(rules: Vec<Rule>) -> (r: Self)
        ensures
            r matches Dictionary::Rules(rs) && rs@ == rules@,
    {
        Self::Rules(rules)
    }

    /// In-memory rules read from plain word lines.
    pub fn new_from_strings(strings: &Vec<String>) -> (r: Self)
        ensures
            r matches Dictionary::Rules(rs) && rs@.len() == strings@.len() && (forall|i: int|
                0 <= i < rs@.len() ==> rule_matches_effect(
                    #[trigger] rs@[i],
                    line_effect(strings@[i]@),
                )),
    {
        let rules = load_dictionary_format(strings);
        proof {
            assert forall|i: int| 0 <= i < rules@.len() implies rule_matches_effect(
                #[trigger] rules@[i],
                line_effect(strings@[i]@),
            ) by {}
        }
        Self::Rules(rules)
    }

    /// The advertised names of this dictionary.
    pub fn get_names(&self, config: Option<&DictionaryConfig>) -> (r: Result<
        Vec<String>,
        DictError,
    >)
        ensures
            ({
                match self {
                    Dictionary::File(p) => r matches Result::Ok(ns) && ns@.len() == 1 && ns@[0]@
                        == stem_of(file_name_of(p@)),
                    Dictionary::Trie(p) => r matches Result::Ok(ns) && ns@.len() == 1 && ns@[0]@
                        == stem_of(file_name_of(p@)),
                    Dictionary::Custom { definition, .. } => r matches Result::Ok(ns) && ns@.len()
                        == 1 && ns@[0]@ == definition.name@,
                    Dictionary::Directory(_) => match config {
                        Some(c) => r matches Result::Ok(ns) && ns@.len() == 1 && ns@[0]@
                            == c.name@,
                        None => r == Result::<Vec<String>, DictError>::Err(
                            DictError::MissingConfig,
                        ),
                    },
                    Dictionary::Rules(_) => r matches Result::Ok(ns) && ns@.len() == 0,
                }
            }),
    {
        match self {
            Self::File(path) => {
                let mut ns: Vec<String> = Vec::new();
                ns.push(file_stem(path.as_str()));
                Ok(ns)
            },
            Self::Trie(path) => {
                let mut ns: Vec<String> = Vec::new();
                ns.push(file_stem(path.as_str()));
                Ok(ns)
            },
            Self::Custom { definition, .. } => {
                let mut ns: Vec<String> = Vec::new();
                ns.push(definition.name.clone());
                Ok(ns)
            },
            Self::Directory(_) => match config {
                Some(c) => {
                    let mut ns: Vec<String> = Vec::new();
                    ns.push(c.name.clone());
                    Ok(ns)
                },
                None => Err(DictError::MissingConfig),
            },
            Self::Rules(_) => Ok(Vec::new()),
        }
    }

    /// The glob patterns that scope this dictionary, when it has any.
    pub fn get_globs(&self, config: Option<&DictionaryConfig>) -> (r: Result<
        Option<Vec<glob::Pattern>>,
        DictError,
    >)
        ensures
            ({
                match self {
                    Dictionary::File(p) => match r {
                        Result::Ok(o) => o matches Option::Some(ps) && ps@.len() == 1
                            && glob_source(ps@[0]) == file_name_of(p@) && glob_ok(
                            file_name_of(p@),
                        ),
                        Result::Err(e) => e == DictError::BadGlob && !glob_ok(file_name_of(p@)),
                    },
                    Dictionary::Directory(_) => match config {
                        Some(c) => match r {
                            Result::Ok(o) => if c.globs@.len() == 0 {
                                o is None
                            } else {
                                o matches Option::Some(ps) && ps@.len() == c.globs@.len() && (
                                forall|i: int|
                                    0 <= i < ps@.len() ==> glob_source(#[trigger] ps@[i])
                                        == c.globs@[i]@)
                            },
                            Result::Err(e) => e == DictError::BadGlob && exists|i: int|
                                0 <= i < c.globs@.len() && !glob_ok((#[trigger] c.globs@[i])@),
                        },
                        None => r == Result::<Option<Vec<glob::Pattern>>, DictError>::Err(
                            DictError::MissingConfig,
                        ),
                    },
                    Dictionary::Custom { definition, .. } => match r {
                        Result::Ok(o) => if definition.globs@.len() == 0 {
                            o is None
                        } else {
                            o matches Option::Some(ps) && ps@.len() == definition.globs@.len() && (
                            forall|i: int|
                                0 <= i < ps@.len() ==> glob_source(#[trigger] ps@[i])
                                    == definition.globs@[i]@)
                        },
                        Result::Err(e) => e == DictError::BadGlob && exists|i: int|
                            0 <= i < definition.globs@.len() && !glob_ok(
                                (#[trigger] definition.globs@[i])@,
                            ),
                    },
                    Dictionary::Trie(_) => r matches Result::Ok(o) && o is None,
                    Dictionary::Rules(_) => r matches Result::Ok(o) && o is None,
                }
            }),
    {
        match self {
            Self::File(path) => {
                let name = file_stem_name(path.as_str());
                match glob_new(name.as_str()) {
                    Ok(p) => {
                        let mut ps: Vec<glob::Pattern> = Vec::new();
                        ps.push(p);
                        Ok(Some(ps))
                    },
                    Err(_) => Err(DictError::BadGlob),
                }
            },
            Self::Directory(_) => match config {
                Some(c) => compile_globs(&c.globs),
                None => Err(DictError::MissingConfig),
            },
            Self::Custom { definition, .. } => compile_globs(&definition.globs),
            Self::Trie(_) => Ok(None),
            Self::Rules(_) => Ok(None),
        }
    }
}

/// The file-name part of a path.
pub fn file_stem_name(path: &str) -> (r: String)
    ensures
        r@ == file_name_of(path@),
{
    let cs = chars_of(path);
    let name = after_last_exec(&cs, '/');
    string_from_chars(&name)
}

/// Compile every glob of a list, or none when the list is empty.
fn compile_globs(globs: &Vec<String>) -> (r: Result<Option<Vec<glob::Pattern>>, DictError>)
    ensures
        ({
            match r {
                Result::Ok(o) => if globs@.len() == 0 {
                    o is None
                } else {
                    o matches Option::Some(ps) && ps@.len() == globs@.len() && (forall|i: int|
                        0 <= i < ps@.len() ==> glob_source(#[trigger] ps@[i]) == globs@[i]@)
                },
                Result::Err(e) => e == DictError::BadGlob,
            }
        }),
        r is Err <==> exists|i: int| 0 <= i < globs@.len() && !glob_ok((#[trigger] globs@[i])@),
{
    if globs.len() == 0 {
        return Ok(None);
    }
    let mut ps: Vec<glob::Pattern> = Vec::new();
    let mut i: usize = 0;
    while i < globs.len()
        invariant
            i <= globs@.len(),
            ps@.len() == i,
            forall|j: int| 0 <= j < i ==> glob_source(#[trigger] ps@[j]) == globs@[j]@,
            forall|j: int| 0 <= j < i ==> glob_ok((#[trigger] globs@[j])@),
        decreases globs@.len() - i,
    {
        match glob_new(globs[i].as_str()) {
            Ok(p) => {
                ps.push(p);
            },
            Err(_) => {
                return Err(DictError::BadGlob);
            },
        }
        i = i + 1;
    }
    Ok(Some(ps))
}

impl Dictionary {
    /// Compile a dictionary from the data its source yields, per the
    /// resolver rules: files and custom sources compile their rule lines; a
    /// directory compiles its concatenated text lines with the manifest's
    /// trailing commands, or its single trie file; a trie source reloads a
    /// stored dump; in-memory rules compile with caching off.
    pub fn compile(&self, source: DictSource, config: Option<&DictionaryConfig>) -> (r: Result<
        Trie,
        DictError,
    >)
        ensures
            ({
                match (self, source) {
                    (Dictionary::File(_), DictSource::FileLines(lines)) => {
                        let lv = lines@.map_values(|l: String| l@);
                        r matches Result::Ok(t) && t.opts() == file_options(lv) && t.words()
                            == file_word_map(lv)
                    },
                    (Dictionary::Custom { .. }, DictSource::FileLines(lines)) => {
                        let lv = lines@.map_values(|l: String| l@);
                        r matches Result::Ok(t) && t.opts() == file_options(lv) && t.words()
                            == file_word_map(lv)
                    },
                    (Dictionary::Directory(_), DictSource::DirectoryText(lines)) => match config {
                        Some(c) => {
                            let lv = lines@.map_values(|l: String| l@);
                            let opts = dir_options(lv, c.case_sensitive, c.no_cache);
                            r matches Result::Ok(t) && t.opts() == opts && t.words()
                                == effects_word_map(effects_of(lv), opts.case_sensitive)
                        },
                        None => r == Result::<Trie, DictError>::Err(DictError::MissingConfig),
                    },
                    (
                        Dictionary::Directory(_),
                        DictSource::DirectoryTrie { lines, path_count },
                    ) => match config {
                        Some(c) => {
                            let lv = lines@.map_values(|l: String| l@);
                            if path_count != 1 {
                                r == Result::<Trie, DictError>::Err(DictError::MixedTrie)
                            } else {
                                match r {
                                    Result::Ok(t) => {
                                        &&& crate::cspell::header_ok(lv)
                                        &&& t.words() == crate::cspell::decoded_word_map(
                                            crate::cspell::spec_decode(
                                                crate::cspell::lines_body(
                                                    lv.skip(crate::cspell::data_pos(lv) + 1),
                                                ),
                                                crate::cspell::header_base_val(lv) as u32,
                                            )->Some_0,
                                            c.case_sensitive,
                                        )
                                        &&& t.opts() == TrieOptions {
                                            cache: !c.no_cache,
                                            case_sensitive: c.case_sensitive,
                                        }
                                    },
                                    Result::Err(e) => e matches DictError::Decode(_) && !(
                                    crate::cspell::header_ok(lv) && 2 <= crate::cspell::header_base_val(
                                        lv,
                                    ) <= 36 && crate::cspell::spec_decode(
                                        crate::cspell::lines_body(
                                            lv.skip(crate::cspell::data_pos(lv) + 1),
                                        ),
                                        crate::cspell::header_base_val(lv) as u32,
                                    ) is Some),
                                }
                            }
                        },
                        None => r == Result::<Trie, DictError>::Err(DictError::MissingConfig),
                    },
                    (Dictionary::Trie(_), DictSource::TrieDump(bytes)) => {
                        &&& (crate::trie::dump_ok(bytes@) ==> (r matches Result::Ok(t)
                            && t.words() == crate::trie::dump_words(bytes@) && t.opts()
                            == crate::trie::dump_options(bytes@)))
                        &&& (r matches Result::Err(e) ==> (e matches DictError::BadDump(_)
                            && !crate::trie::dump_ok(bytes@)))
                    },
                    (Dictionary::Rules(rs), DictSource::InMemory) => {
                        let opts = apply_command(rules_options(rs@), Command::Cache(false));
                        r matches Result::Ok(t) && t.opts() == opts && t.words()
                            == rules_word_map(rs@, opts.case_sensitive)
                    },
                    _ => r == Result::<Trie, DictError>::Err(DictError::SourceMismatch),
                }
            }),
    {
        match (self, source) {
            (Self::File(_), DictSource::FileLines(lines)) => Ok(compile_file_lines(&lines)),
            (Self::Custom { .. }, DictSource::FileLines(lines)) => Ok(
                compile_file_lines(&lines),
            ),
            (Self::Directory(_), DictSource::DirectoryText(lines)) => match config {
                Some(c) => {
                    let mut rules = load_dictionary_format(&lines);
                    let ghost base_rules = rules@;
                    let ghost lv = lines@.map_values(|l: String| l@);
                    let ghost es = effects_of(lv);
                    proof {
                        assert forall|i: int| 0 <= i < base_rules.len() implies rule_matches_effect(
                            #[trigger] base_rules[i],
                            es[i],
                        ) by {
                            assert(es[i] == line_effect(lv[i]));
                            assert(lv[i] == lines@[i]@);
                        }
                    }
                    if c.case_sensitive {
                        rules.push(Rule::Command(Command::CaseSensitive));
                    }
                    let ghost mid_rules = rules@;
                    rules.push(Rule::Command(Command::Cache(!c.no_cache)));
                    let t = Trie::from_rules(&rules);
                    proof {
                        let opts = dir_options(lv, c.case_sensitive, c.no_cache);
                        lemma_rules_realize_options(default_options(), base_rules, es);
                        if c.case_sensitive {
                            assert(mid_rules.drop_last() =~= base_rules);
                            assert(mid_rules.last() == Rule::Command(Command::CaseSensitive));
                            assert(rules_options(mid_rules) == apply_command(
                                rules_options(base_rules),
                                Command::CaseSensitive,
                            ));
                            assert(rules@.drop_last() =~= mid_rules);
                            assert(rules@.last() == Rule::Command(Command::Cache(!c.no_cache)));
                            assert(rules_options(rules@) == apply_command(
                                rules_options(mid_rules),
                                Command::Cache(!c.no_cache),
                            ));
                        } else {
                            assert(rules@.drop_last() =~= base_rules);
                            assert(rules@.last() == Rule::Command(Command::Cache(!c.no_cache)));
                            assert(rules_options(rules@) == apply_command(
                                rules_options(base_rules),
                                Command::Cache(!c.no_cache),
                            ));
                        }
                        assert(rules_options(rules@) == opts);
                        if c.case_sensitive {
                            assert(rules@ =~= base_rules.push(
                                Rule::Command(Command::CaseSensitive),
                            ).push(Rule::Command(Command::Cache(!c.no_cache))));
                            lemma_word_map_append_command(
                                base_rules.push(Rule::Command(Command::CaseSensitive)),
                                Command::Cache(!c.no_cache),
                                opts.case_sensitive,
                            );
                            lemma_word_map_append_command(
                                base_rules,
                                Command::CaseSensitive,
                                opts.case_sensitive,
                            );
                        } else {
                            assert(rules@ =~= base_rules.push(
                                Rule::Command(Command::Cache(!c.no_cache)),
                            ));
                            lemma_word_map_append_command(
                                base_rules,
                                Command::Cache(!c.no_cache),
                                opts.case_sensitive,
                            );
                        }
                        lemma_rules_realize_effects(base_rules, es, opts.case_sensitive);
                    }
                    Ok(t)
                },
                None => Err(DictError::MissingConfig),
            },
            (Self::Directory(_), DictSource::DirectoryTrie { lines, path_count }) => match config {
                Some(c) => {
                    if path_count != 1 {
                        return Err(DictError::MixedTrie);
                    }
                    match crate::cspell::parse_trie_with(&lines, c.case_sensitive) {
                        Ok(p) => {
                            let mut t = p.1;
                            t.set_options(
                                TrieOptions {
                                    cache: !c.no_cache,
                                    case_sensitive: c.case_sensitive,
                                },
                            );
                            Ok(t)
                        },
                        Err(e) => Err(DictError::Decode(e)),
                    }
                },
                None => Err(DictError::MissingConfig),
            },
            (Self::Trie(_), DictSource::TrieDump(bytes)) => match Trie::load(bytes.as_slice()) {
                Ok(t) => Ok(t),
                Err(e) => Err(DictError::BadDump(e)),
            },
            (Self::Rules(rs), DictSource::InMemory) => {
                let mut rules = clone_rules(rs);
                let ghost cloned = rules@;
                rules.push(Rule::Command(Command::Cache(false)));
                let t = Trie::from_rules(&rules);
                proof {
                    let opts = apply_command(rules_options(rs@), Command::Cache(false));
                    lemma_like_rules_options(default_options(), rs@, cloned);
                    assert(rules@.drop_last() =~= cloned);
                    assert(rules@ =~= cloned.push(Rule::Command(Command::Cache(false))));
                    assert(rules_options(rules@) == opts);
                    lemma_word_map_append_command(cloned, Command::Cache(false), opts.case_sensitive);
                    lemma_like_rules_same(rs@, cloned, opts.case_sensitive);
                }
                Ok(t)
            },
            (_, _) => Err(DictError::SourceMismatch),
        }
    }
}

/// Law: the cache is sound for a file source.  An artifact dumped from a
/// compile of the source reloads to exactly the words and options a fresh
/// compile of the same source yields.  (That the stored content hash still
/// matches the source only tells the resolver the artifact is current; this
/// is the equality it then relies on.)
pub fn cached_artifact_matches_fresh_compile(lines: &Vec<String>) -> (r: (Trie, Trie))
    ensures
        r.0.words() == r.1.words(),
        r.0.opts() == r.1.opts(),
        r.1.words() == file_word_map(lines@.map_values(|l: String| l@)),
        r.1.opts() == file_options(lines@.map_values(|l: String| l@)),
{
    let fresh = compile_file_lines(lines);
    let stored = fresh.dump();
    let reloaded = match Trie::load(stored.as_slice()) {
        Ok(t) => t,
        Err(_) => {
            proof {
                assert(false);
            }
            vstd::pervasive::unreached()
        },
    };
    (reloaded, compile_file_lines(lines))
}

} // verus!
