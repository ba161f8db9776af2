//! The word-index: an immutable set of words with allow/disallow status,
//! stored in a finite-state transducer (`fst::map::Map`) and carrying the
//! options the rule compiler settled on.
//!
//! Model: `fst_contents` maps an fst map to the entries whose keys are valid
//! UTF-8, keyed by their characters; `fst_wf` says every key of the map is
//! valid UTF-8.  Every `Trie` this module hands out satisfies `fst_wf`.
//! The contracts on the fst boundary speak of maps this library builds or
//! serializes itself; the fst crate's load-time validation of foreign bytes
//! is shallow, so nothing is claimed of maps wrapped around other bytes it
//! happens to accept.
use vstd::prelude::*;

use fst::IntoStreamer;

use crate::dictionary::{Command, Rule};
use crate::text::{
    chars_eq, chars_le, chars_of, lower_chars, lower_seq, seq_char_le, seq_char_lt,
    string_from_chars, lemma_seq_char_le_antisym, lemma_seq_char_le_total,
    lemma_seq_char_le_trans,
};

verus! {

/// Status value stored for an allowed word.
pub const STATUS_ALLOW: u64 = 0;

/// Status value stored for a disallowed word.
pub const STATUS_DISALLOW: u64 = 1;

// ---------------------------------------------------------------------------
// Outside types
// ---------------------------------------------------------------------------

#[verifier::external_type_specification]
#[verifier::external_body]
#[verifier::reject_recursive_types(D)]
pub struct ExFstMap<D>(fst::map::Map<D>);

#[verifier::external_type_specification]
#[verifier::external_body]
pub struct ExFstError(fst::Error);

// ---------------------------------------------------------------------------
// Names for what the fst map holds
// ---------------------------------------------------------------------------

/// The entries of the map whose keys are valid UTF-8, keyed by characters.
pub uninterp spec fn fst_contents(m: fst::map::Map<Vec<u8>>) -> Map<Seq<char>, u64>;

/// Whether every key of the map is valid UTF-8.
pub uninterp spec fn fst_wf(m: fst::map::Map<Vec<u8>>) -> bool;

/// Whether the bytes are a serialized form this library's own serializer
/// produces.  Other byte strings may also pass the fst crate's shallow
/// load-time checks; nothing is claimed of those.
pub uninterp spec fn fst_bytes_valid(b: Seq<u8>) -> bool;

/// The contents of the map this library serialized into the bytes.
pub uninterp spec fn fst_bytes_contents(b: Seq<u8>) -> Map<Seq<char>, u64>;

/// Whether every key of the map this library serialized into the bytes is
/// valid UTF-8.
pub uninterp spec fn fst_bytes_wf(b: Seq<u8>) -> bool;

// ---------------------------------------------------------------------------
// Spec helpers over entry sequences
// ---------------------------------------------------------------------------

/// The map described by a sequence of entries; a later entry wins.
pub open spec fn pairs_map(ps: Seq<(Seq<char>, u64)>) -> Map<Seq<char>, u64>
    decreases ps.len(),
{
    if ps.len() == 0 {
        Map::empty()
    } else {
        pairs_map(ps.drop_last()).insert(ps.last().0, ps.last().1)
    }
}

/// Keys strictly ascending in code-point order.
pub open spec fn keys_sorted(ps: Seq<(Seq<char>, u64)>) -> bool {
    forall|i: int, j: int| 0 <= i < j < ps.len() ==> seq_char_lt(#[trigger] ps[i].0, #[trigger] ps[j].0)
}

/// On a sequence with distinct keys, `pairs_map` is membership.
pub proof fn lemma_pairs_map_char(ps: Seq<(Seq<char>, u64)>)
    requires
        forall|i: int, j: int| 0 <= i < j < ps.len() ==> (#[trigger] ps[i]).0 != (#[trigger] ps[j]).0,
    ensures
        forall|k: Seq<char>|
            pairs_map(ps).dom().contains(k) <==> exists|i: int|
                0 <= i < ps.len() && (#[trigger] ps[i]).0 == k,
        forall|i: int|
            0 <= i < ps.len() ==> pairs_map(ps)[(#[trigger] ps[i]).0] == ps[i].1,
    decreases ps.len(),
{
    if ps.len() > 0 {
        let prefix = ps.drop_last();
        assert forall|i: int, j: int| 0 <= i < j < prefix.len() implies (#[trigger] prefix[i]).0
            != (#[trigger] prefix[j]).0 by {
            assert(prefix[i] == ps[i]);
            assert(prefix[j] == ps[j]);
        }
        lemma_pairs_map_char(prefix);
        assert forall|i: int| 0 <= i < ps.len() implies pairs_map(ps)[(#[trigger] ps[i]).0]
            == ps[i].1 by {
            if i < ps.len() - 1 {
                assert(ps[i].0 != ps[ps.len() - 1].0);
                assert(prefix[i] == ps[i]);
            }
        }
        assert forall|k: Seq<char>| pairs_map(ps).dom().contains(k) implies exists|i: int|
            0 <= i < ps.len() && (#[trigger] ps[i]).0 == k by {
            if k != ps.last().0 {
                assert(pairs_map(ps) == pairs_map(prefix).insert(ps.last().0, ps.last().1));
                assert(pairs_map(prefix).dom().contains(k));
                assert(exists|i: int| 0 <= i < prefix.len() && (#[trigger] prefix[i]).0 == k);
                let i = choose|i: int| 0 <= i < prefix.len() && (#[trigger] prefix[i]).0 == k;
                assert(prefix[i] == ps[i]);
                assert(ps[i].0 == k);
            } else {
                assert(ps[ps.len() - 1].0 == k);
            }
        }
        assert forall|k: Seq<char>|
            (exists|i: int| 0 <= i < ps.len() && (#[trigger] ps[i]).0 == k) implies pairs_map(
            ps,
        ).dom().contains(k) by {
            let i = choose|i: int| 0 <= i < ps.len() && (#[trigger] ps[i]).0 == k;
            if i < ps.len() - 1 {
                assert(prefix[i] == ps[i]);
            }
        }
    }
}

pub proof fn lemma_sorted_distinct(ps: Seq<(Seq<char>, u64)>)
    requires
        keys_sorted(ps),
    ensures
        forall|i: int, j: int| 0 <= i < j < ps.len() ==> (#[trigger] ps[i]).0 != (#[trigger] ps[j]).0,
{
    assert forall|i: int, j: int| 0 <= i < j < ps.len() implies (#[trigger] ps[i]).0
        != (#[trigger] ps[j]).0 by {
        assert(seq_char_lt(ps[i].0, ps[j].0));
    }
}

// ---------------------------------------------------------------------------
// Trusted boundary to the fst crate
// ---------------------------------------------------------------------------

/// Relies on fst::map::Map::from_iter: it builds the map of exactly the given
/// entries and, per its documentation, errors only when the keys are not
/// unique and ascending.  UTF-8 encoding preserves code-point order, so keys
/// ascending by `seq_char_lt` are ascending byte strings, and the in-memory
/// writer `Vec<u8>` cannot fail; the call therefore succeeds.
#[verifier::external_body]
fn fst_from_sorted(pairs: &Vec<(String, u64)>) -> (r: fst::map::Map<Vec<u8>>)
    requires
        forall|i: int, j: int|
            0 <= i < j < pairs@.len() ==> seq_char_lt(
                (#[trigger] pairs@[i]).0@,
                (#[trigger] pairs@[j]).0@,
            ),
    ensures
        fst_wf(r),
        fst_contents(r) == pairs_map(
            pairs@.map_values(|p: (String, u64)| (p.0@, p.1)),
        ),
{
    fst::map::Map::from_iter(pairs.iter().map(|p| (p.0.as_str(), p.1))).expect(
        "keys are unique and ascending",
    )
}

/// Relies on fst::map::Map::get: it returns the value stored under the key.
#[verifier::external_body]
fn fst_get(m: &fst::map::Map<Vec<u8>>, key: &str) -> (r: Option<u64>)
    ensures
        r == if fst_contents(*m).dom().contains(key@) {
            Some(fst_contents(*m)[key@])
        } else {
            None::<u64>
        },
{
    m.get(key)
}

/// Relies on fst::map::Map::stream and Stream::into_str_vec: they yield every
/// entry in ascending byte order of keys, and err exactly when some key is
/// not valid UTF-8.  Ascending byte order of UTF-8 keys is ascending
/// code-point order of their characters.
#[verifier::external_body]
fn fst_entries(m: &fst::map::Map<Vec<u8>>) -> (r: Result<Vec<(String, u64)>, fst::Error>)
    ensures
        r is Ok <==> fst_wf(*m),
        r is Ok ==> {
            let es = r->Ok_0@.map_values(|p: (String, u64)| (p.0@, p.1));
            &&& keys_sorted(es)
            &&& pairs_map(es) == fst_contents(*m)
        },
{
    m.stream().into_str_vec().map_err(Into::into)
}

/// Relies on fst::raw::Fst::to_vec (through as_fst): it returns the bytes the
/// map is stored as; fst::map::Map::new accepts exactly those bytes and
/// yields a map with the same entries.
#[verifier::external_body]
fn fst_to_bytes(m: &fst::map::Map<Vec<u8>>) -> (r: Vec<u8>)
    ensures
        fst_bytes_valid(r@),
        fst_bytes_contents(r@) == fst_contents(*m),
        fst_bytes_wf(r@) == fst_wf(*m),
{
    m.as_fst().to_vec()
}

/// Relies on fst::map::Map::new.  Its validation is shallow (length,
/// version, root address; it does not verify the checksum or the node
/// structure), so nothing is claimed of byte strings this library did not
/// serialize itself: acceptance does not mean the bytes are a genuine map,
/// and a map wrapped around such bytes is outside every claim here.  Bytes
/// this library serialized always load back to a map with the same entries.
#[verifier::external_body]
fn fst_from_bytes(data: Vec<u8>) -> (r: Result<fst::map::Map<Vec<u8>>, fst::Error>)
    ensures
        fst_bytes_valid(data@) ==> r is Ok,
        r is Ok && fst_bytes_valid(data@) ==> fst_contents(r->Ok_0) == fst_bytes_contents(data@)
            && fst_wf(r->Ok_0) == fst_bytes_wf(data@),
{
    fst::map::Map::new(data)
}

/// Levenshtein distance (insertions, deletions, substitutions).
pub open spec fn lev_dist(a: Seq<char>, b: Seq<char>) -> nat
    decreases a.len() + b.len(),
{
    if a.len() == 0 {
        b.len()
    } else if b.len() == 0 {
        a.len()
    } else {
        let del = lev_dist(a.drop_first(), b) + 1;
        let ins = lev_dist(a, b.drop_first()) + 1;
        let sub = lev_dist(a.drop_first(), b.drop_first()) + if a[0] == b[0] {
            0int
        } else {
            1int
        };
        let m = if del <= ins {
            del as int
        } else {
            ins as int
        };
        if m <= sub {
            m as nat
        } else {
            sub as nat
        }
    }
}

/// An error from the fuzzy search.
#[derive(Clone, Copy, Debug, PartialEq, Eq, Structural)]
pub enum FuzzyError {
    /// The automaton for the query could not be built.
    Automaton,
    /// The matching keys could not be read back.
    Keys,
}

/// Whether the Levenshtein automaton for the query and edit budget fits the
/// fst crate's state limit; a function of the query and the budget alone.
pub uninterp spec fn lev_fits(q: Seq<char>, d: nat) -> bool;

/// Relies on fst::automaton::Levenshtein and fst::map::Map::search: the
/// search yields exactly the entries whose key is within the given
/// Levenshtein distance of the query, in ascending key order.  Building the
/// automaton fails exactly when it outgrows the state limit, which depends
/// on the query and distance alone; reading keys back fails only on a key
/// that is not valid UTF-8, so on an index whose keys are all UTF-8 the
/// search succeeds exactly when the automaton fits.
#[verifier::external_body]
fn fst_fuzzy(m: &fst::map::Map<Vec<u8>>, query: &str, dist: u32) -> (r: Result<
    Vec<(String, u64)>,
    FuzzyError,
>)
    ensures
        fst_wf(*m) ==> (r is Ok <==> lev_fits(query@, dist as nat)),
        r is Ok ==> {
            let es = r->Ok_0@.map_values(|p: (String, u64)| (p.0@, p.1));
            &&& keys_sorted(es)
            &&& forall|i: int|
                0 <= i < es.len() ==> fst_contents(*m).dom().contains((#[trigger] es[i]).0)
                    && fst_contents(*m)[es[i].0] == es[i].1 && lev_dist(es[i].0, query@)
                    <= dist
            &&& forall|w: Seq<char>|
                fst_contents(*m).dom().contains(w) && lev_dist(w, query@) <= dist
                    ==> exists|i: int| 0 <= i < es.len() && (#[trigger] es[i]).0 == w
        },
{
    let aut = match fst::automaton::Levenshtein::new(query, dist) {
        Ok(a) => a,
        Err(_) => return Err(FuzzyError::Automaton),
    };
    match m.search(aut).into_stream().into_str_vec() {
        Ok(v) => Ok(v),
        Err(_) => Err(FuzzyError::Keys),
    }
}

// ---------------------------------------------------------------------------
// Similarity ranking for suggestions
// ---------------------------------------------------------------------------

/// Edit budget used for fuzzy lookups in the suggestion layer.
pub const EDIT_BUDGET: u32 = 1;

/// A suggestion must exceed SIM_THRESHOLD_NUM / SIM_THRESHOLD_DEN
/// normalized similarity.
pub const SIM_THRESHOLD_NUM: u128 = 7;

pub const SIM_THRESHOLD_DEN: u128 = 10;

pub uninterp spec fn dl_dist(a: Seq<char>, b: Seq<char>) -> nat;

/// Relies on strsim::damerau_levenshtein: the result depends on the two
/// strings alone.
pub assume_specification[ strsim::damerau_levenshtein ](a: &str, b: &str) -> (r: usize)
    ensures
        r as nat == dl_dist(a@, b@),
;

/// Numerator and denominator of the normalized Damerau-Levenshtein
/// similarity of `w` to `q`, clamped below at zero; 1/1 when both are empty.
pub open spec fn sim_pair(w: Seq<char>, q: Seq<char>) -> (int, int) {
    let l: int = if w.len() >= q.len() {
        w.len() as int
    } else {
        q.len() as int
    };
    if l == 0 {
        (1int, 1int)
    } else {
        let d = dl_dist(w, q) as int;
        (
            if d >= l {
                0int
            } else {
                l - d
            },
            l,
        )
    }
}

/// `a` is at least as similar to the query as `b` is.
pub open spec fn sim_ge(a: Seq<char>, b: Seq<char>, q: Seq<char>) -> bool {
    sim_pair(a, q).0 * sim_pair(b, q).1 >= sim_pair(b, q).0 * sim_pair(a, q).1
}

/// The similarity bar a suggestion must clear.
pub open spec fn sim_over_threshold(w: Seq<char>, q: Seq<char>) -> bool {
    (SIM_THRESHOLD_DEN as int) * sim_pair(w, q).0 > (SIM_THRESHOLD_NUM as int) * sim_pair(
        w,
        q,
    ).1
}

/// The allowed words within the edit budget of the query.
pub open spec fn cand_set(words: Map<Seq<char>, u64>, q: Seq<char>, d: nat) -> Set<Seq<char>> {
    Set::new(
        |w: Seq<char>|
            words.dom().contains(w) && words[w] == STATUS_ALLOW && lev_dist(w, q) <= d,
    )
}

/// What a successful fuzzy lookup returns: exactly the candidate set, in
/// ascending code-point order.
pub open spec fn fuzzy_ok(
    words: Map<Seq<char>, u64>,
    q: Seq<char>,
    d: nat,
    out: Seq<Seq<char>>,
) -> bool {
    &&& forall|i: int| 0 <= i < out.len() ==> cand_set(words, q, d).contains(#[trigger] out[i])
    &&& forall|w: Seq<char>|
        cand_set(words, q, d).contains(w) ==> exists|i: int| 0 <= i < out.len() && #[trigger] out[i]
            == w
    &&& forall|i: int, j: int|
        0 <= i < j < out.len() ==> seq_char_lt(#[trigger] out[i], #[trigger] out[j])
}

pub proof fn lemma_sim_refl(n: int, d: int)
    ensures
        n * d >= n * d,
{
}

/// Strictly-better-than composed with at-least-as-good stays strictly better.
pub proof fn lemma_sim_gt_ge_trans(na: int, da: int, nb: int, db: int, nc: int, dc: int)
    requires
        da > 0,
        db > 0,
        dc > 0,
        na * db > nb * da,
        nb * dc >= nc * db,
    ensures
        na * dc > nc * da,
{
    assert(na * dc > nc * da) by (nonlinear_arith)
        requires
            da > 0,
            db > 0,
            dc > 0,
            na * db > nb * da,
            nb * dc >= nc * db,
    ;
}

/// At-least-as-good is transitive.
pub proof fn lemma_sim_ge_trans(na: int, da: int, nb: int, db: int, nc: int, dc: int)
    requires
        da > 0,
        db > 0,
        dc > 0,
        na * db >= nb * da,
        nb * dc >= nc * db,
    ensures
        na * dc >= nc * da,
{
    assert(na * dc >= nc * da) by (nonlinear_arith)
        requires
            da > 0,
            db > 0,
            dc > 0,
            na * db >= nb * da,
            nb * dc >= nc * db,
    ;
}

/// Similarity numerator and denominator of a candidate, as machine integers.
pub fn sim_parts(cand: &str, query: &str) -> (r: (u128, u128))
    ensures
        r.0 as int == sim_pair(cand@, query@).0,
        r.1 as int == sim_pair(cand@, query@).1,
        r.0 <= 0xffff_ffff_ffff_ffffu128,
        1 <= r.1 <= 0xffff_ffff_ffff_ffffu128,
{
    let lc = cand.unicode_len();
    let lq = query.unicode_len();
    let l: usize = if lc >= lq {
        lc
    } else {
        lq
    };
    if l == 0 {
        (1, 1)
    } else {
        let d = strsim::damerau_levenshtein(cand, query);
        let num: u128 = if d >= l {
            0
        } else {
            (l - d) as u128
        };
        (num, l as u128)
    }
}

// ---------------------------------------------------------------------------
// Options
// ---------------------------------------------------------------------------

/// The options a word-index was compiled with.
#[derive(Clone, Copy, Debug, PartialEq, Eq, Structural)]
pub struct TrieOptions {
    pub cache: bool,
    pub case_sensitive: bool,
}

pub open spec fn default_options() -> TrieOptions {
    TrieOptions { cache: true, case_sensitive: false }
}

pub open spec fn apply_command(o: TrieOptions, c: Command) -> TrieOptions {
    match c {
        Command::CaseSensitive => TrieOptions { cache: o.cache, case_sensitive: true },
        Command::Cache(b) => TrieOptions { cache: b, case_sensitive: o.case_sensitive },
    }
}

impl TrieOptions {
    pub fn new() -> (r: Self)
        ensures
            r == default_options(),
    {
        TrieOptions { cache: true, case_sensitive: false }
    }

    pub fn add_command(&mut self, command: &Command)
        ensures
            *final(self) == apply_command(*old(self), *command),
    {
        match command {
            Command::CaseSensitive => {
                self.case_sensitive = true;
            },
            Command::Cache(cache) => {
                self.cache = *cache;
            },
        }
    }
}

// ---------------------------------------------------------------------------
// The rule compiler's meaning
// ---------------------------------------------------------------------------

/// Options after folding every command of the rule list, in order.
pub open spec fn rules_options_from(o: TrieOptions, rules: Seq<Rule>) -> TrieOptions
    decreases rules.len(),
{
    if rules.len() == 0 {
        o
    } else {
        match rules.last() {
            Rule::Command(c) => apply_command(rules_options_from(o, rules.drop_last()), c),
            _ => rules_options_from(o, rules.drop_last()),
        }
    }
}

pub open spec fn rules_options(rules: Seq<Rule>) -> TrieOptions {
    rules_options_from(default_options(), rules)
}

/// The word and status a rule contributes, if any.
pub open spec fn rule_word(r: Rule) -> Option<(Seq<char>, u64)> {
    match r {
        Rule::Allow(w) => Some((w@, STATUS_ALLOW)),
        Rule::Disallow(w) => Some((w@, STATUS_DISALLOW)),
        _ => None,
    }
}

/// Case folding applied when the compiled index is case-insensitive.
pub open spec fn folded(w: Seq<char>, case_sensitive: bool) -> Seq<char> {
    if case_sensitive {
        w
    } else {
        lower_seq(w)
    }
}

/// The word map a rule list compiles to: a word is present when some
/// allow or disallow rule folds to it, and a disallow anywhere wins.
pub open spec fn rules_word_map(rules: Seq<Rule>, case_sensitive: bool) -> Map<Seq<char>, u64> {
    Map::new(
        |w: Seq<char>|
            exists|i: int|
                0 <= i < rules.len() && match rule_word(#[trigger] rules[i]) {
                    Some(p) => folded(p.0, case_sensitive) == w,
                    None => false,
                },
        |w: Seq<char>|
            if exists|i: int|
                0 <= i < rules.len() && match rule_word(#[trigger] rules[i]) {
                    Some(p) => folded(p.0, case_sensitive) == w && p.1 == STATUS_DISALLOW,
                    None => false,
                } {
                STATUS_DISALLOW
            } else {
                STATUS_ALLOW
            },
    )
}

// ---------------------------------------------------------------------------
// The word-index itself
// ---------------------------------------------------------------------------

/// How one more rule changes the compiled word map.
pub open spec fn word_map_step(
    m: Map<Seq<char>, u64>,
    r: Rule,
    case_sensitive: bool,
) -> Map<Seq<char>, u64> {
    match rule_word(r) {
        None => m,
        Some(p) => {
            let k = folded(p.0, case_sensitive);
            let v = if (m.dom().contains(k) && m[k] == STATUS_DISALLOW) || p.1
                == STATUS_DISALLOW {
                STATUS_DISALLOW
            } else {
                STATUS_ALLOW
            };
            m.insert(k, v)
        },
    }
}

pub proof fn lemma_rules_word_map_step(rules: Seq<Rule>, i: int, cs: bool)
    requires
        0 <= i < rules.len(),
    ensures
        rules_word_map(rules.take(i + 1), cs) == word_map_step(
            rules_word_map(rules.take(i), cs),
            rules[i],
            cs,
        ),
{
    let a = rules.take(i + 1);
    let b = rules.take(i);
    let ma = rules_word_map(a, cs);
    let mb = rules_word_map(b, cs);
    let target = word_map_step(mb, rules[i], cs);
    assert forall|j: int| 0 <= j < a.len() implies #[trigger] a[j] == rules[j] by {}
    assert forall|j: int| 0 <= j < b.len() implies #[trigger] b[j] == rules[j] by {}
    assert forall|w: Seq<char>| ma.dom().contains(w) implies target.dom().contains(w) by {
        let j = choose|j: int|
            0 <= j < a.len() && match rule_word(#[trigger] a[j]) {
                Some(p) => folded(p.0, cs) == w,
                None => false,
            };
        if j < i {
            assert(b[j] == a[j]);
            assert(mb.dom().contains(w));
        } else {
            assert(a[j] == rules[i]);
        }
    }
    assert forall|w: Seq<char>| target.dom().contains(w) implies ma.dom().contains(w) by {
        if mb.dom().contains(w) {
            let j = choose|j: int|
                0 <= j < b.len() && match rule_word(#[trigger] b[j]) {
                    Some(p) => folded(p.0, cs) == w,
                    None => false,
                };
            assert(a[j] == b[j]);
            assert(ma.dom().contains(w));
        } else {
            assert(a[i] == rules[i]);
            assert(ma.dom().contains(w));
        }
    }
    assert forall|w: Seq<char>| ma.dom().contains(w) implies ma[w] == target[w] by {
        let dis_a = exists|j: int|
            0 <= j < a.len() && match rule_word(#[trigger] a[j]) {
                Some(p) => folded(p.0, cs) == w && p.1 == STATUS_DISALLOW,
                None => false,
            };
        let dis_b = exists|j: int|
            0 <= j < b.len() && match rule_word(#[trigger] b[j]) {
                Some(p) => folded(p.0, cs) == w && p.1 == STATUS_DISALLOW,
                None => false,
            };
        let dis_i = match rule_word(rules[i]) {
            Some(p) => folded(p.0, cs) == w && p.1 == STATUS_DISALLOW,
            None => false,
        };
        assert(dis_a <==> dis_b || dis_i) by {
            if dis_a {
                let j = choose|j: int|
                    0 <= j < a.len() && match rule_word(#[trigger] a[j]) {
                        Some(p) => folded(p.0, cs) == w && p.1 == STATUS_DISALLOW,
                        None => false,
                    };
                if j < i {
                    assert(b[j] == a[j]);
                    assert(dis_b);
                } else {
                    assert(a[j] == rules[i]);
                }
            }
            if dis_b {
                let j = choose|j: int|
                    0 <= j < b.len() && match rule_word(#[trigger] b[j]) {
                        Some(p) => folded(p.0, cs) == w && p.1 == STATUS_DISALLOW,
                        None => false,
                    };
                assert(a[j] == b[j]);
                assert(dis_a);
            }
            if dis_i {
                assert(a[i] == rules[i]);
                assert(dis_a);
            }
        }
        if mb.dom().contains(w) && mb[w] == STATUS_DISALLOW {
            assert(dis_b);
        }
        if dis_b {
            assert(mb.dom().contains(w)) by {
                let j = choose|j: int|
                    0 <= j < b.len() && match rule_word(#[trigger] b[j]) {
                        Some(p) => folded(p.0, cs) == w && p.1 == STATUS_DISALLOW,
                        None => false,
                    };
            }
            assert(mb[w] == STATUS_DISALLOW);
        }
    }
    assert(ma =~= target);
}

/// Sorted-insert of one folded word, a disallow anywhere winning.
pub(crate) fn insert_word(lst: &mut Vec<(Vec<char>, u64)>, key: Vec<char>, status: u64)
    requires
        keys_sorted(old(lst)@.map_values(|p: (Vec<char>, u64)| (p.0@, p.1))),
    ensures
        keys_sorted(final(lst)@.map_values(|p: (Vec<char>, u64)| (p.0@, p.1))),
        pairs_map(final(lst)@.map_values(|p: (Vec<char>, u64)| (p.0@, p.1))) == {
            let m = pairs_map(old(lst)@.map_values(|p: (Vec<char>, u64)| (p.0@, p.1)));
            let v = if (m.dom().contains(key@) && m[key@] == STATUS_DISALLOW) || status
                == STATUS_DISALLOW {
                STATUS_DISALLOW
            } else {
                STATUS_ALLOW
            };
            m.insert(key@, v)
        },
{
    let ghost k = key@;
    let ghost es0 = lst@.map_values(|p: (Vec<char>, u64)| (p.0@, p.1));
    let ghost m0 = pairs_map(es0);
    proof {
        lemma_sorted_distinct(es0);
        lemma_pairs_map_char(es0);
    }
    let mut i: usize = 0;
    while i < lst.len() && crate::text::chars_lt(&lst[i].0, &key)
        invariant
            i <= lst.len(),
            k == key@,
            es0 == lst@.map_values(|p: (Vec<char>, u64)| (p.0@, p.1)),
            forall|j: int| 0 <= j < i ==> seq_char_lt((#[trigger] es0[j]).0, k),
        decreases lst.len() - i,
    {
        proof {
            assert(es0[i as int].0 == lst@[i as int].0@);
        }
        i = i + 1;
    }
    proof {
        assert forall|j: int| i <= j < es0.len() implies seq_char_le(
            k,
            (#[trigger] es0[j]).0,
        ) by {
            let ki = es0[i as int].0;
            assert(ki == lst@[i as int].0@);
            assert(!seq_char_lt(ki, k));
            if !seq_char_le(ki, k) {
                lemma_seq_char_le_total(ki, k);
            } else {
                assert(ki == k);
                crate::text::lemma_seq_char_le_refl(k);
            }
            if j > i {
                assert(seq_char_lt(es0[i as int].0, es0[j].0));
                lemma_seq_char_le_trans(k, es0[i as int].0, es0[j].0);
            }
        }
    }
    if i < lst.len() && chars_eq(&lst[i].0, &key) {
        proof {
            assert(es0[i as int].0 == lst@[i as int].0@);
            assert(es0[i as int].0 == k);
            assert(m0.dom().contains(k));
            assert(m0[k] == es0[i as int].1);
        }
        let entry = lst.remove(i);
        let merged: u64 = if entry.1 == STATUS_DISALLOW || status == STATUS_DISALLOW {
            STATUS_DISALLOW
        } else {
            STATUS_ALLOW
        };
        lst.insert(i, (entry.0, merged));
        proof {
            let es1 = lst@.map_values(|p: (Vec<char>, u64)| (p.0@, p.1));
            let tgt = es0.update(i as int, (k, merged));
            assert forall|n: int| 0 <= n < es1.len() implies #[trigger] es1[n] == tgt[n] by {
                assert(es1[n] == (lst@[n].0@, lst@[n].1));
                if n < i {
                    assert(lst@[n] == old(lst)@[n]);
                } else if n == i {
                    assert(lst@[n].0@ == k);
                    assert(lst@[n].1 == merged);
                } else {
                    assert(lst@[n] == old(lst)@[n]);
                }
            }
            assert(es1 =~= tgt);
            assert forall|a: int, b: int| 0 <= a < b < es1.len() implies seq_char_lt(
                (#[trigger] es1[a]).0,
                (#[trigger] es1[b]).0,
            ) by {
                assert(es1[a].0 == es0[a].0);
                assert(es1[b].0 == es0[b].0);
            }
            lemma_sorted_distinct(es1);
            lemma_pairs_map_char(es1);
            let v = if (m0.dom().contains(k) && m0[k] == STATUS_DISALLOW) || status
                == STATUS_DISALLOW {
                STATUS_DISALLOW
            } else {
                STATUS_ALLOW
            };
            assert(v == merged);
            assert forall|w: Seq<char>| pairs_map(es1).dom().contains(w) implies m0.insert(
                k,
                v,
            ).dom().contains(w) by {
                let n = choose|n: int| 0 <= n < es1.len() && (#[trigger] es1[n]).0 == w;
                assert(es0[n].0 == w);
            }
            assert forall|w: Seq<char>| m0.insert(k, v).dom().contains(w) implies pairs_map(
                es1,
            ).dom().contains(w) by {
                if w == k {
                    assert(es1[i as int].0 == w);
                } else {
                    let n = choose|n: int| 0 <= n < es0.len() && (#[trigger] es0[n]).0 == w;
                    assert(es1[n].0 == w);
                }
            }
            assert forall|w: Seq<char>| pairs_map(es1).dom().contains(w) implies pairs_map(es1)[w]
                == m0.insert(k, v)[w] by {
                let n = choose|n: int| 0 <= n < es1.len() && (#[trigger] es1[n]).0 == w;
                assert(pairs_map(es1)[w] == es1[n].1);
                if n == i {
                    assert(es1[n].1 == v);
                } else {
                    assert(es1[n] == es0[n]);
                    assert(w != k) by {
                        if w == k {
                            assert(es0[n].0 == es0[i as int].0);
                        }
                    }
                    assert(m0[w] == es0[n].1);
                }
            }
            assert(pairs_map(es1) =~= m0.insert(k, v));
        }
    } else {
        proof {
            assert(!m0.dom().contains(k)) by {
                if m0.dom().contains(k) {
                    let n = choose|n: int| 0 <= n < es0.len() && (#[trigger] es0[n]).0 == k;
                    if n < i {
                        assert(seq_char_lt(es0[n].0, k));
                    } else {
                        assert(i < lst@.len());
                        assert(es0[i as int].0 == lst@[i as int].0@);
                        assert(es0[i as int].0 != k);
                        assert(n != i);
                        assert(seq_char_lt(es0[i as int].0, es0[n].0));
                        assert(seq_char_le(es0[i as int].0, k));
                        assert(seq_char_le(k, es0[i as int].0));
                        lemma_seq_char_le_antisym(k, es0[i as int].0);
                    }
                }
            }
        }
        let v: u64 = if status == STATUS_DISALLOW {
            STATUS_DISALLOW
        } else {
            STATUS_ALLOW
        };
        lst.insert(i, (key, v));
        proof {
            let es1 = lst@.map_values(|p: (Vec<char>, u64)| (p.0@, p.1));
            let tgt = es0.insert(i as int, (k, v));
            assert forall|n: int| 0 <= n < es1.len() implies #[trigger] es1[n] == tgt[n] by {
                assert(es1[n] == (lst@[n].0@, lst@[n].1));
                if n < i {
                    assert(lst@[n] == old(lst)@[n]);
                    assert(es0[n] == (old(lst)@[n].0@, old(lst)@[n].1));
                } else if n > i {
                    assert(lst@[n] == old(lst)@[n - 1]);
                    assert(es0[n - 1] == (old(lst)@[n - 1].0@, old(lst)@[n - 1].1));
                }
            }
            assert(es1 =~= tgt);
            assert forall|a: int, b: int| 0 <= a < b < es1.len() implies seq_char_lt(
                (#[trigger] es1[a]).0,
                (#[trigger] es1[b]).0,
            ) by {
                if b < i {
                    assert(es1[a].0 == es0[a].0);
                    assert(es1[b].0 == es0[b].0);
                } else if a < i && b == i {
                    assert(es1[a].0 == es0[a].0);
                    assert(seq_char_lt(es0[a].0, k));
                } else if a < i && b > i {
                    assert(es1[a].0 == es0[a].0);
                    assert(es1[b].0 == es0[b - 1].0);
                    assert(a < b - 1);
                    assert(seq_char_lt(es0[a].0, es0[b - 1].0));
                } else if a == i {
                    assert(es1[a].0 == k);
                    assert(es1[b].0 == es0[b - 1].0);
                    assert(seq_char_le(k, es0[b - 1].0));
                    assert(k != es0[b - 1].0) by {
                        if k == es0[b - 1].0 {
                            assert(m0.dom().contains(k));
                        }
                    }
                } else {
                    assert(es1[a].0 == es0[a - 1].0);
                    assert(es1[b].0 == es0[b - 1].0);
                    assert(seq_char_lt(es0[a - 1].0, es0[b - 1].0));
                }
            }
            lemma_sorted_distinct(es1);
            lemma_pairs_map_char(es1);
            assert forall|w: Seq<char>| pairs_map(es1).dom().contains(w) implies m0.insert(
                k,
                v,
            ).dom().contains(w) by {
                let n = choose|n: int| 0 <= n < es1.len() && (#[trigger] es1[n]).0 == w;
                if n < i {
                    assert(es0[n].0 == w);
                } else if n > i {
                    assert(es0[n - 1].0 == w);
                }
            }
            assert forall|w: Seq<char>| m0.insert(k, v).dom().contains(w) implies pairs_map(
                es1,
            ).dom().contains(w) by {
                if w == k {
                    assert(es1[i as int].0 == w);
                } else {
                    let n = choose|n: int| 0 <= n < es0.len() && (#[trigger] es0[n]).0 == w;
                    if n < i {
                        assert(es1[n].0 == w);
                    } else {
                        assert(es1[n + 1].0 == w);
                    }
                }
            }
            assert forall|w: Seq<char>| pairs_map(es1).dom().contains(w) implies pairs_map(es1)[w]
                == m0.insert(k, v)[w] by {
                let n = choose|n: int| 0 <= n < es1.len() && (#[trigger] es1[n]).0 == w;
                assert(pairs_map(es1)[w] == es1[n].1);
                if n == i {
                } else {
                    let n0 = if n < i {
                        n
                    } else {
                        n - 1
                    };
                    assert(es1[n] == es0[n0]);
                    assert(w != k) by {
                        if w == k {
                            assert(m0.dom().contains(k));
                        }
                    }
                    assert(m0[w] == es0[n0].1);
                }
            }
            assert(pairs_map(es1) =~= m0.insert(k, v));
        }
    }
}

pub struct Trie {
    map: fst::map::Map<Vec<u8>>,
    options: TrieOptions,
}

impl Trie {
    #[verifier::type_invariant]
    spec fn inv(&self) -> bool {
        fst_wf(self.map)
    }

    /// The stored words with their status.
    pub closed spec fn words(&self) -> Map<Seq<char>, u64> {
        fst_contents(self.map)
    }

    pub closed spec fn opts(&self) -> TrieOptions {
        self.options
    }

    /// Membership: the word, folded per the options, is stored as allowed.
    pub open spec fn spec_contains(&self, w: Seq<char>) -> bool {
        let k = folded(w, self.opts().case_sensitive);
        self.words().dom().contains(k) && self.words()[k] == STATUS_ALLOW
    }

    /// The empty word-index.
    pub fn new() -> (r: Self)
        ensures
            r.words() == Map::<Seq<char>, u64>::empty(),
            r.opts() == default_options(),
    {
        let pairs: Vec<(String, u64)> = Vec::new();
        let map = fst_from_sorted(&pairs);
        proof {
            assert(pairs@.map_values(|p: (String, u64)| (p.0@, p.1)) =~= Seq::empty());
        }
        Trie { map, options: TrieOptions::new() }
    }

    pub fn options(&self) -> (r: TrieOptions)
        ensures
            r == self.opts(),
    {
        self.options
    }

    /// Replace the options record, keeping the words.
    pub fn set_options(&mut self, options: TrieOptions)
        ensures
            final(self).words() == old(self).words(),
            final(self).opts() == options,
    {
        proof {
            use_type_invariant(&*self);
        }
        self.options = options;
    }

    pub fn contains(&self, word: &str) -> (r: bool)
        ensures
            r == self.spec_contains(word@),
    {
        if self.options.case_sensitive {
            match fst_get(&self.map, word) {
                Some(v) => v == STATUS_ALLOW,
                None => false,
            }
        } else {
            let cs = chars_of(word);
            let low = lower_chars(&cs);
            let key = string_from_chars(&low);
            match fst_get(&self.map, key.as_str()) {
                Some(v) => v == STATUS_ALLOW,
                None => false,
            }
        }
    }

    /// Every allowed word, in ascending code-point order.
    pub fn to_vec(&self) -> (r: Vec<String>)
        ensures
            forall|i: int|
                0 <= i < r@.len() ==> self.words().dom().contains((#[trigger] r@[i])@)
                    && self.words()[r@[i]@] == STATUS_ALLOW,
            forall|w: Seq<char>|
                self.words().dom().contains(w) && self.words()[w] == STATUS_ALLOW
                    ==> exists|i: int| 0 <= i < r@.len() && (#[trigger] r@[i])@ == w,
            forall|i: int, j: int|
                0 <= i < j < r@.len() ==> seq_char_lt((#[trigger] r@[i])@, (#[trigger] r@[j])@),
    {
        proof {
            use_type_invariant(&*self);
        }
        let entries = match fst_entries(&self.map) {
            Ok(es) => es,
            Err(_) => {
                proof {
                    assert(false);
                }
                vstd::pervasive::unreached()
            },
        };
        let ghost es = entries@.map_values(|p: (String, u64)| (p.0@, p.1));
        proof {
            lemma_sorted_distinct(es);
            lemma_pairs_map_char(es);
        }
        let mut r: Vec<String> = Vec::new();
        let mut i: usize = 0;
        while i < entries.len()
            invariant
                i <= entries.len(),
                es == entries@.map_values(|p: (String, u64)| (p.0@, p.1)),
                keys_sorted(es),
                pairs_map(es) == self.words(),
                forall|a: int, b: int|
                    0 <= a < b < es.len() ==> (#[trigger] es[a]).0 != (#[trigger] es[b]).0,
                forall|k: Seq<char>|
                    pairs_map(es).dom().contains(k) <==> exists|n: int|
                        0 <= n < es.len() && (#[trigger] es[n]).0 == k,
                forall|n: int| 0 <= n < es.len() ==> pairs_map(es)[(#[trigger] es[n]).0] == es[n].1,
                forall|j: int|
                    0 <= j < r@.len() ==> self.words().dom().contains((#[trigger] r@[j])@)
                        && self.words()[r@[j]@] == STATUS_ALLOW,
                forall|n: int|
                    0 <= n < i && es[n].1 == STATUS_ALLOW ==> exists|j: int|
                        0 <= j < r@.len() && (#[trigger] r@[j])@ == es[n].0,
                forall|j: int|
                    0 <= j < r@.len() ==> exists|n: int|
                        0 <= n < i && (#[trigger] r@[j])@ == es[n].0,
                forall|a: int, b: int|
                    0 <= a < b < r@.len() ==> seq_char_lt((#[trigger] r@[a])@, (#[trigger] r@[b])@),
            decreases entries.len() - i,
        {
            let (key, val) = (&entries[i].0, entries[i].1);
            proof {
                assert(es[i as int] == (entries@[i as int].0@, entries@[i as int].1));
            }
            if val == STATUS_ALLOW {
                let ghost r0 = r@;
                proof {
                    assert forall|a: int| 0 <= a < r0.len() implies seq_char_lt(
                        (#[trigger] r0[a])@,
                        es[i as int].0,
                    ) by {
                        let n = choose|n: int| 0 <= n < i && (#[trigger] r0[a])@ == es[n].0;
                        assert(seq_char_lt(es[n].0, es[i as int].0));
                    }
                }
                let key2 = key.clone();
                proof {
                    assert(key2@ == es[i as int].0);
                }
                r.push(key2);
                proof {
                    assert(r@ == r0.push(key2));
                    assert((r@[r0.len() as int])@ == es[i as int].0);
                    assert forall|n: int|
                        0 <= n < i + 1 && es[n].1 == STATUS_ALLOW implies exists|j: int|
                        0 <= j < r@.len() && (#[trigger] r@[j])@ == es[n].0 by {
                        if n < i {
                            let j = choose|j: int|
                                0 <= j < r0.len() && (#[trigger] r0[j])@ == es[n].0;
                            assert(r@[j] == r0[j]);
                        } else {
                            assert((r@[r0.len() as int])@ == es[n].0);
                        }
                    }
                }
            }
            i = i + 1;
        }
        proof {
            assert forall|w: Seq<char>|
                self.words().dom().contains(w) && self.words()[w] == STATUS_ALLOW implies exists|j: int|
                0 <= j < r@.len() && (#[trigger] r@[j])@ == w by {
                let n = choose|n: int| 0 <= n < es.len() && (#[trigger] es[n]).0 == w;
                assert(es[n].1 == STATUS_ALLOW);
            }
        }
        r
    }

    /// Compile a rule list: fold every command into the options, then store
    /// each allow/disallow word folded per the final case sensitivity; a
    /// disallow wins over an allow of the same word, in either order.
    pub fn from_rules(rules: &Vec<Rule>) -> (r: Trie)
        ensures
            r.opts() == rules_options(rules@),
            r.words() == rules_word_map(rules@, rules_options(rules@).case_sensitive),
    {
        let mut options = TrieOptions::new();
        let mut i: usize = 0;
        while i < rules.len()
            invariant
                i <= rules.len(),
                options == rules_options_from(default_options(), rules@.take(i as int)),
            decreases rules.len() - i,
        {
            match &rules[i] {
                Rule::Command(c) => {
                    options.add_command(c);
                },
                _ => {},
            }
            i = i + 1;
            proof {
                assert(rules@.take(i as int).drop_last() =~= rules@.take(i - 1));
                assert(rules@.take(i as int).last() == rules@[i - 1]);
            }
        }
        proof {
            assert(rules@.take(rules@.len() as int) =~= rules@);
        }
        let cs = options.case_sensitive;
        let mut lst: Vec<(Vec<char>, u64)> = Vec::new();
        let mut n: usize = 0;
        while n < rules.len()
            invariant
                n <= rules.len(),
                cs == rules_options(rules@).case_sensitive,
                keys_sorted(lst@.map_values(|p: (Vec<char>, u64)| (p.0@, p.1))),
                pairs_map(lst@.map_values(|p: (Vec<char>, u64)| (p.0@, p.1)))
                    == rules_word_map(rules@.take(n as int), cs),
            decreases rules.len() - n,
        {
            let ghost m_pre = pairs_map(lst@.map_values(|p: (Vec<char>, u64)| (p.0@, p.1)));
            match &rules[n] {
                Rule::Allow(w) => {
                    let wc = chars_of(w.as_str());
                    let keyv = if cs {
                        wc
                    } else {
                        lower_chars(&wc)
                    };
                    proof {
                        assert(keyv@ == folded(w@, cs));
                    }
                    insert_word(&mut lst, keyv, STATUS_ALLOW);
                },
                Rule::Disallow(w) => {
                    let wc = chars_of(w.as_str());
                    let keyv = if cs {
                        wc
                    } else {
                        lower_chars(&wc)
                    };
                    proof {
                        assert(keyv@ == folded(w@, cs));
                    }
                    insert_word(&mut lst, keyv, STATUS_DISALLOW);
                },
                _ => {},
            }
            n = n + 1;
            proof {
                lemma_rules_word_map_step(rules@, n - 1, cs);
            }
        }
        proof {
            assert(rules@.take(rules@.len() as int) =~= rules@);
        }
        trie_from_pairs(&lst, options)
    }
}

/// Build a word-index from a sorted entry list and an options record.
pub(crate) fn trie_from_pairs(lst: &Vec<(Vec<char>, u64)>, options: TrieOptions) -> (r: Trie)
    requires
        keys_sorted(lst@.map_values(|p: (Vec<char>, u64)| (p.0@, p.1))),
    ensures
        r.words() == pairs_map(lst@.map_values(|p: (Vec<char>, u64)| (p.0@, p.1))),
        r.opts() == options,
{
    let mut pairs: Vec<(String, u64)> = Vec::new();
    let mut j: usize = 0;
    while j < lst.len()
        invariant
            j <= lst.len(),
            pairs@.len() == j,
            forall|q: int|
                0 <= q < j ==> (#[trigger] pairs@[q]).0@ == lst@[q].0@ && pairs@[q].1 == lst@[q].1,
        decreases lst.len() - j,
    {
        let s = string_from_chars(&lst[j].0);
        let v = lst[j].1;
        pairs.push((s, v));
        j = j + 1;
    }
    proof {
        let esl = lst@.map_values(|p: (Vec<char>, u64)| (p.0@, p.1));
        let esp = pairs@.map_values(|p: (String, u64)| (p.0@, p.1));
        assert(esp =~= esl);
        assert forall|a: int, b: int| 0 <= a < b < pairs@.len() implies seq_char_lt(
            (#[trigger] pairs@[a]).0@,
            (#[trigger] pairs@[b]).0@,
        ) by {
            assert(seq_char_lt(esl[a].0, esl[b].0));
        }
    }
    let map = fst_from_sorted(&pairs);
    Trie { map, options }
}

/// Law: a compiled word-index contains a word exactly when, after folding
/// with the compiled options, some allow rule yields the word and no
/// disallow rule does (a disallow wins regardless of order).
pub proof fn lemma_compiled_contains(t: &Trie, rules: Seq<Rule>, w: Seq<char>)
    requires
        t.opts() == rules_options(rules),
        t.words() == rules_word_map(rules, rules_options(rules).case_sensitive),
    ensures
        t.spec_contains(w) <==> {
            let cs = rules_options(rules).case_sensitive;
            let k = folded(w, cs);
            &&& exists|i: int|
                0 <= i < rules.len() && match #[trigger] rules[i] {
                    Rule::Allow(x) => folded(x@, cs) == k,
                    _ => false,
                }
            &&& !exists|i: int|
                0 <= i < rules.len() && match #[trigger] rules[i] {
                    Rule::Disallow(x) => folded(x@, cs) == k,
                    _ => false,
                }
        },
{
    let cs = rules_options(rules).case_sensitive;
    let k = folded(w, cs);
    let m = rules_word_map(rules, cs);
    if t.spec_contains(w) {
        assert(m.dom().contains(k) && m[k] == STATUS_ALLOW);
        let i = choose|i: int|
            0 <= i < rules.len() && match rule_word(#[trigger] rules[i]) {
                Some(p) => folded(p.0, cs) == k,
                None => false,
            };
        assert(match rules[i] {
            Rule::Allow(x) => folded(x@, cs) == k,
            Rule::Disallow(x) => folded(x@, cs) == k,
            _ => false,
        });
        assert(!exists|j: int|
            0 <= j < rules.len() && match rule_word(#[trigger] rules[j]) {
                Some(p) => folded(p.0, cs) == k && p.1 == STATUS_DISALLOW,
                None => false,
            });
        assert(match rules[i] {
            Rule::Allow(x) => folded(x@, cs) == k,
            _ => false,
        });
    } else {
        if (exists|i: int|
            0 <= i < rules.len() && match #[trigger] rules[i] {
                Rule::Allow(x) => folded(x@, cs) == k,
                _ => false,
            }) && !(exists|i: int|
            0 <= i < rules.len() && match #[trigger] rules[i] {
                Rule::Disallow(x) => folded(x@, cs) == k,
                _ => false,
            }) {
            let i = choose|i: int|
                0 <= i < rules.len() && match #[trigger] rules[i] {
                    Rule::Allow(x) => folded(x@, cs) == k,
                    _ => false,
                };
            assert(match rule_word(rules[i]) {
                Some(p) => folded(p.0, cs) == k,
                None => false,
            });
            assert(m.dom().contains(k));
            if m[k] == STATUS_DISALLOW {
                let j = choose|j: int|
                    0 <= j < rules.len() && match rule_word(#[trigger] rules[j]) {
                        Some(p) => folded(p.0, cs) == k && p.1 == STATUS_DISALLOW,
                        None => false,
                    };
                assert(match rules[j] {
                    Rule::Disallow(x) => folded(x@, cs) == k,
                    _ => false,
                });
            }
            assert(false);
        }
    }
}

/// Law: in a compiled rule set, a word is contained exactly when some allow
/// rule for it precedes no later disallow rule for it.  Stated for rule
/// lists in which no disallow of the word precedes an allow of it: a
/// disallow wins regardless of order, so the ordered reading fails on
/// a disallow-then-allow list.
pub proof fn lemma_allow_precedes_no_disallow(t: &Trie, rules: Seq<Rule>, w: Seq<char>)
    requires
        t.opts() == rules_options(rules),
        t.words() == rules_word_map(rules, rules_options(rules).case_sensitive),
        ({
            let cs = rules_options(rules).case_sensitive;
            let k = folded(w, cs);
            !exists|i: int, j: int|
                0 <= i < j < rules.len() && (match #[trigger] rules[i] {
                    Rule::Disallow(x) => folded(x@, cs) == k,
                    _ => false,
                }) && (match #[trigger] rules[j] {
                    Rule::Allow(y) => folded(y@, cs) == k,
                    _ => false,
                })
        }),
    ensures
        ({
            let cs = rules_options(rules).case_sensitive;
            let k = folded(w, cs);
            t.spec_contains(w) <==> exists|i: int|
                0 <= i < rules.len() && (match #[trigger] rules[i] {
                    Rule::Allow(x) => folded(x@, cs) == k,
                    _ => false,
                }) && !(exists|j: int|
                    i < j < rules.len() && (match #[trigger] rules[j] {
                        Rule::Disallow(y) => folded(y@, cs) == k,
                        _ => false,
                    }))
        }),
{
    lemma_compiled_contains(t, rules, w);
    let cs = rules_options(rules).case_sensitive;
    let k = folded(w, cs);
    let has_allow = exists|i: int|
        0 <= i < rules.len() && match #[trigger] rules[i] {
            Rule::Allow(x) => folded(x@, cs) == k,
            _ => false,
        };
    let has_dis = exists|i: int|
        0 <= i < rules.len() && match #[trigger] rules[i] {
            Rule::Disallow(x) => folded(x@, cs) == k,
            _ => false,
        };
    if t.spec_contains(w) {
        assert(has_allow && !has_dis);
        let i = choose|i: int|
            0 <= i < rules.len() && match #[trigger] rules[i] {
                Rule::Allow(x) => folded(x@, cs) == k,
                _ => false,
            };
        assert(!(exists|j: int|
            i < j < rules.len() && (match #[trigger] rules[j] {
                Rule::Disallow(y) => folded(y@, cs) == k,
                _ => false,
            }))) by {
            if exists|j: int|
                i < j < rules.len() && (match #[trigger] rules[j] {
                    Rule::Disallow(y) => folded(y@, cs) == k,
                    _ => false,
                }) {
                let j = choose|j: int|
                    i < j < rules.len() && (match #[trigger] rules[j] {
                        Rule::Disallow(y) => folded(y@, cs) == k,
                        _ => false,
                    });
                assert(has_dis);
            }
        }
    } else {
        if exists|i: int|
            0 <= i < rules.len() && (match #[trigger] rules[i] {
                Rule::Allow(x) => folded(x@, cs) == k,
                _ => false,
            }) && !(exists|j: int|
                i < j < rules.len() && (match #[trigger] rules[j] {
                    Rule::Disallow(y) => folded(y@, cs) == k,
                    _ => false,
                })) {
            let i = choose|i: int|
                0 <= i < rules.len() && (match #[trigger] rules[i] {
                    Rule::Allow(x) => folded(x@, cs) == k,
                    _ => false,
                }) && !(exists|j: int|
                    i < j < rules.len() && (match #[trigger] rules[j] {
                        Rule::Disallow(y) => folded(y@, cs) == k,
                        _ => false,
                    }));
            assert(has_allow);
            assert(!has_dis) by {
                if has_dis {
                    let j = choose|j: int|
                        0 <= j < rules.len() && match #[trigger] rules[j] {
                            Rule::Disallow(x) => folded(x@, cs) == k,
                            _ => false,
                        };
                    if j > i {
                    } else {
                        assert(j != i);
                        assert(0 <= j < i < rules.len() && (match rules[j] {
                            Rule::Disallow(x) => folded(x@, cs) == k,
                            _ => false,
                        }) && (match rules[i] {
                            Rule::Allow(y) => folded(y@, cs) == k,
                            _ => false,
                        }));
                    }
                }
            }
            assert(t.spec_contains(w));
        }
    }
}

// ---------------------------------------------------------------------------
// Serialization: a two-byte options frame followed by the fst bytes
// ---------------------------------------------------------------------------

/// Whether the bytes are a well-formed dump: the two option flags followed
/// by serialized fst bytes whose keys are all valid UTF-8.
pub open spec fn dump_ok(b: Seq<u8>) -> bool {
    &&& b.len() >= 2
    &&& (b[0] == 0 || b[0] == 1)
    &&& (b[1] == 0 || b[1] == 1)
    &&& fst_bytes_valid(b.skip(2))
    &&& fst_bytes_wf(b.skip(2))
}

pub open spec fn dump_options(b: Seq<u8>) -> TrieOptions {
    TrieOptions { cache: b[0] == 1, case_sensitive: b[1] == 1 }
}

pub open spec fn dump_words(b: Seq<u8>) -> Map<Seq<char>, u64> {
    fst_bytes_contents(b.skip(2))
}

/// Why a dump failed to load.
#[derive(Clone, Copy, Debug, PartialEq, Eq, Structural)]
pub enum LoadError {
    /// Shorter than the options frame, or a flag byte is not 0 or 1.
    Frame,
    /// The payload is not a serialized fst map.
    Data,
    /// The payload holds a key that is not valid UTF-8.
    Keys,
}

impl Trie {
    /// Serialize: the options frame, then the fst bytes.
    pub fn dump(&self) -> (r: Vec<u8>)
        ensures
            dump_ok(r@),
            dump_options(r@) == self.opts(),
            dump_words(r@) == self.words(),
    {
        proof {
            use_type_invariant(&*self);
        }
        let mut out: Vec<u8> = Vec::new();
        out.push(if self.options.cache {
            1
        } else {
            0
        });
        out.push(if self.options.case_sensitive {
            1
        } else {
            0
        });
        let mut bytes = fst_to_bytes(&self.map);
        let ghost bs = bytes@;
        out.append(&mut bytes);
        proof {
            assert(out@.skip(2) =~= bs);
        }
        out
    }

    /// Deserialize a dump.  Genuine dump bytes always load back to the
    /// dumped words and options, and every error means the bytes are no
    /// dump; the converse is not claimed, because the fst crate's load-time
    /// validation of foreign bytes is shallow.
    pub fn load(data: &[u8]) -> (r: Result<Trie, LoadError>)
        ensures
            dump_ok(data@) ==> (r matches Result::Ok(t) && t.words() == dump_words(data@)
                && t.opts() == dump_options(data@)),
            r is Err ==> !dump_ok(data@),
            r == Result::<Trie, LoadError>::Err(LoadError::Frame) <==> !(data@.len() >= 2 && (
            data@[0] == 0 || data@[0] == 1) && (data@[1] == 0 || data@[1] == 1)),
            r == Result::<Trie, LoadError>::Err(LoadError::Data) ==> !fst_bytes_valid(
                data@.skip(2),
            ),
    {
        if data.len() < 2 {
            return Err(LoadError::Frame);
        }
        let b0 = data[0];
        let b1 = data[1];
        if !(b0 == 0 || b0 == 1) || !(b1 == 0 || b1 == 1) {
            return Err(LoadError::Frame);
        }
        let mut payload: Vec<u8> = Vec::new();
        let mut i: usize = 2;
        while i < data.len()
            invariant
                2 <= i <= data@.len(),
                payload@ == data@.subrange(2, i as int),
            decreases data@.len() - i,
        {
            payload.push(data[i]);
            i = i + 1;
            proof {
                assert(data@.subrange(2, i as int) =~= data@.subrange(2, i - 1).push(
                    data@[i - 1],
                ));
            }
        }
        proof {
            assert(payload@ =~= data@.skip(2));
        }
        let map = match fst_from_bytes(payload) {
            Ok(m) => m,
            Err(_) => {
                return Err(LoadError::Data);
            },
        };
        match fst_entries(&map) {
            Ok(_) => {},
            Err(_) => {
                return Err(LoadError::Keys);
            },
        }
        let options = TrieOptions { cache: b0 == 1, case_sensitive: b1 == 1 };
        Ok(Trie { map, options })
    }

    /// Every allowed word within the edit budget of the query, ascending;
    /// fails exactly when the query's automaton outgrows its state limit.
    pub fn fuzzy(&self, word: &str, dist: u32) -> (r: Result<Vec<String>, FuzzyError>)
        ensures
            r is Ok <==> lev_fits(word@, dist as nat),
            r is Ok ==> fuzzy_ok(
                self.words(),
                word@,
                dist as nat,
                r->Ok_0@.map_values(|s: String| s@),
            ),
    {
        proof {
            use_type_invariant(&*self);
        }
        let entries = match fst_fuzzy(&self.map, word, dist) {
            Ok(es) => es,
            Err(e) => {
                return Err(e);
            },
        };
        let ghost es = entries@.map_values(|p: (String, u64)| (p.0@, p.1));
        proof {
            lemma_sorted_distinct(es);
        }
        let mut r: Vec<String> = Vec::new();
        let mut i: usize = 0;
        while i < entries.len()
            invariant
                i <= entries.len(),
                es == entries@.map_values(|p: (String, u64)| (p.0@, p.1)),
                keys_sorted(es),
                forall|n: int|
                    0 <= n < es.len() ==> self.words().dom().contains((#[trigger] es[n]).0)
                        && self.words()[es[n].0] == es[n].1 && lev_dist(es[n].0, word@)
                        <= dist,
                forall|w: Seq<char>|
                    self.words().dom().contains(w) && lev_dist(w, word@) <= dist
                        ==> exists|n: int| 0 <= n < es.len() && (#[trigger] es[n]).0 == w,
                forall|j: int|
                    0 <= j < r@.len() ==> cand_set(self.words(), word@, dist as nat).contains(
                        (#[trigger] r@[j])@,
                    ),
                forall|n: int|
                    0 <= n < i && es[n].1 == STATUS_ALLOW ==> exists|j: int|
                        0 <= j < r@.len() && (#[trigger] r@[j])@ == es[n].0,
                forall|j: int|
                    0 <= j < r@.len() ==> exists|n: int|
                        0 <= n < i && (#[trigger] r@[j])@ == es[n].0,
                forall|a: int, b: int|
                    0 <= a < b < r@.len() ==> seq_char_lt((#[trigger] r@[a])@, (#[trigger] r@[b])@),
            decreases entries.len() - i,
        {
            let val = entries[i].1;
            proof {
                assert(es[i as int] == (entries@[i as int].0@, entries@[i as int].1));
            }
            if val == STATUS_ALLOW {
                let ghost r0 = r@;
                proof {
                    assert forall|a: int| 0 <= a < r0.len() implies seq_char_lt(
                        (#[trigger] r0[a])@,
                        es[i as int].0,
                    ) by {
                        let n = choose|n: int| 0 <= n < i && (#[trigger] r0[a])@ == es[n].0;
                        assert(seq_char_lt(es[n].0, es[i as int].0));
                    }
                }
                let key2 = entries[i].0.clone();
                proof {
                    assert(key2@ == es[i as int].0);
                    assert(cand_set(self.words(), word@, dist as nat).contains(es[i as int].0));
                }
                r.push(key2);
                proof {
                    assert(r@ == r0.push(key2));
                    assert forall|n: int|
                        0 <= n < i + 1 && es[n].1 == STATUS_ALLOW implies exists|j: int|
                        0 <= j < r@.len() && (#[trigger] r@[j])@ == es[n].0 by {
                        if n < i {
                            let j = choose|j: int|
                                0 <= j < r0.len() && (#[trigger] r0[j])@ == es[n].0;
                            assert(r@[j] == r0[j]);
                        } else {
                            assert((r@[r0.len() as int])@ == es[n].0);
                        }
                    }
                }
            }
            i = i + 1;
        }
        proof {
            let out = r@.map_values(|s: String| s@);
            assert forall|j: int| 0 <= j < out.len() implies cand_set(
                self.words(),
                word@,
                dist as nat,
            ).contains(#[trigger] out[j]) by {
                assert(out[j] == r@[j]@);
            }
            assert forall|w: Seq<char>|
                cand_set(self.words(), word@, dist as nat).contains(w) implies exists|j: int|
                0 <= j < out.len() && #[trigger] out[j] == w by {
                let n = choose|n: int| 0 <= n < es.len() && (#[trigger] es[n]).0 == w;
                assert(es[n].1 == STATUS_ALLOW);
                let j = choose|j: int| 0 <= j < r@.len() && (#[trigger] r@[j])@ == es[n].0;
                assert(out[j] == w);
            }
            assert forall|a: int, b: int| 0 <= a < b < out.len() implies seq_char_lt(
                #[trigger] out[a],
                #[trigger] out[b],
            ) by {
                assert(out[a] == r@[a]@);
                assert(out[b] == r@[b]@);
            }
        }
        Ok(r)
    }

    /// The best fuzzy candidate for the word: maximal normalized similarity,
    /// the lexicographically first on a tie; `None` when no stored allowed
    /// word is within the edit budget.  Fails exactly when the query's
    /// automaton outgrows its state limit.
    pub fn check(&self, word: &str) -> (r: Result<Option<String>, FuzzyError>)
        ensures
            r is Ok <==> lev_fits(word@, EDIT_BUDGET as nat),
            r is Ok ==> match r->Ok_0 {
                Option::None => forall|w: Seq<char>|
                    !cand_set(self.words(), word@, EDIT_BUDGET as nat).contains(w),
                Option::Some(s) => {
                    let c = cand_set(self.words(), word@, EDIT_BUDGET as nat);
                    &&& c.contains(s@)
                    &&& forall|w: Seq<char>| c.contains(w) ==> sim_ge(s@, w, word@)
                    &&& forall|w: Seq<char>|
                        c.contains(w) && sim_ge(w, s@, word@) ==> seq_char_le(s@, w)
                },
            },
    {
        let cands = match self.fuzzy(word, EDIT_BUDGET) {
            Ok(cs) => cs,
            Err(e) => {
                return Err(e);
            },
        };
        let ghost out = cands@.map_values(|s: String| s@);
        let ghost c = cand_set(self.words(), word@, EDIT_BUDGET as nat);
        if cands.len() == 0 {
            proof {
                assert forall|w: Seq<char>| !c.contains(w) by {
                    if c.contains(w) {
                        let j = choose|j: int| 0 <= j < out.len() && #[trigger] out[j] == w;
                    }
                }
            }
            return Ok(None);
        }
        let mut best_i: usize = 0;
        let (mut bnum, mut bden) = sim_parts(&cands[0], word);
        let mut j: usize = 1;
        while j < cands.len()
            invariant
                1 <= j <= cands.len(),
                best_i < j,
                out == cands@.map_values(|s: String| s@),
                cands@.len() == out.len(),
                forall|a: int, b: int|
                    0 <= a < b < out.len() ==> seq_char_lt(#[trigger] out[a], #[trigger] out[b]),
                bnum as int == sim_pair(out[best_i as int], word@).0,
                bden as int == sim_pair(out[best_i as int], word@).1,
                bnum <= 0xffff_ffff_ffff_ffffu128,
                1 <= bden <= 0xffff_ffff_ffff_ffffu128,
                forall|m: int| 0 <= m < j ==> sim_ge(out[best_i as int], #[trigger] out[m], word@),
                forall|m: int|
                    0 <= m < j && sim_ge(#[trigger] out[m], out[best_i as int], word@)
                        ==> best_i <= m,
            decreases cands.len() - j,
        {
            let (num, den) = sim_parts(&cands[j], word);
            proof {
                assert(num * bden <= 0xffff_ffff_ffff_ffffu128 * 0xffff_ffff_ffff_ffffu128)
                    by (nonlinear_arith)
                    requires
                        num <= 0xffff_ffff_ffff_ffffu128,
                        bden <= 0xffff_ffff_ffff_ffffu128,
                ;
                assert(bnum * den <= 0xffff_ffff_ffff_ffffu128 * 0xffff_ffff_ffff_ffffu128)
                    by (nonlinear_arith)
                    requires
                        bnum <= 0xffff_ffff_ffff_ffffu128,
                        den <= 0xffff_ffff_ffff_ffffu128,
                ;
            }
            if num * bden > bnum * den {
                proof {
                    let nb = out[best_i as int];
                    let nj = out[j as int];
                    assert(sim_pair(nj, word@).0 * sim_pair(nb, word@).1 > sim_pair(
                        nb,
                        word@,
                    ).0 * sim_pair(nj, word@).1);
                    assert forall|m: int| 0 <= m < j + 1 implies sim_ge(
                        nj,
                        #[trigger] out[m],
                        word@,
                    ) by {
                        if m < j {
                            lemma_sim_gt_ge_trans(
                                sim_pair(nj, word@).0,
                                sim_pair(nj, word@).1,
                                sim_pair(nb, word@).0,
                                sim_pair(nb, word@).1,
                                sim_pair(out[m], word@).0,
                                sim_pair(out[m], word@).1,
                            );
                        } else {
                            lemma_sim_refl(sim_pair(nj, word@).0, sim_pair(nj, word@).1);
                        }
                    }
                    assert forall|m: int|
                        0 <= m < j + 1 && sim_ge(#[trigger] out[m], nj, word@) implies j
                        <= m by {
                        if m < j {
                            lemma_sim_gt_ge_trans(
                                sim_pair(nj, word@).0,
                                sim_pair(nj, word@).1,
                                sim_pair(nb, word@).0,
                                sim_pair(nb, word@).1,
                                sim_pair(out[m], word@).0,
                                sim_pair(out[m], word@).1,
                            );
                        }
                    }
                }
                best_i = j;
                bnum = num;
                bden = den;
            } else {
                proof {
                    let nb = out[best_i as int];
                    let nj = out[j as int];
                    assert(sim_ge(nb, nj, word@));
                }
            }
            j = j + 1;
        }
        let best = cands[best_i].clone();
        proof {
            assert(best@ == out[best_i as int]);
            assert(c.contains(out[best_i as int])) by {
                assert(out[best_i as int] == cands@[best_i as int]@);
            }
            assert forall|w: Seq<char>| c.contains(w) implies sim_ge(best@, w, word@) by {
                let m = choose|m: int| 0 <= m < out.len() && #[trigger] out[m] == w;
                assert(sim_ge(out[best_i as int], out[m], word@));
            }
            assert forall|w: Seq<char>| c.contains(w) && sim_ge(w, best@, word@) implies seq_char_le(
                best@,
                w,
            ) by {
                let m = choose|m: int| 0 <= m < out.len() && #[trigger] out[m] == w;
                assert(best_i <= m);
                if (best_i as int) < m {
                    assert(seq_char_lt(out[best_i as int], out[m]));
                } else {
                    crate::text::lemma_seq_char_le_refl(best@);
                }
            }
        }
        Ok(Some(best))
    }

    /// Law: reloading a dumped word-index yields the same words and the same
    /// options (the dump/load round trip).
    pub fn reload(&self) -> (r: Trie)
        ensures
            r.words() == self.words(),
            r.opts() == self.opts(),
    {
        let data = self.dump();
        match Trie::load(data.as_slice()) {
            Ok(t) => t,
            Err(_) => {
                proof {
                    assert(false);
                }
                vstd::pervasive::unreached()
            },
        }
    }
}

} // verus!
