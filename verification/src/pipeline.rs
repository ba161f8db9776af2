//! The check pipeline's decision logic: the merged run settings, the
//! name-to-index registry the loader fills before workers start, the
//! per-file index union, and the sequential meaning of the worker pool that
//! the concurrent runner must deliver.
use vstd::prelude::*;

use std::sync::Arc;

use crate::args::ContextData;
use crate::code::{handle_text, text_reports_complete, text_typo_ok, Typo};
use crate::multi_trie::MultiTrie;
use crate::settings::Settings;
use crate::text::str_eq_str;
use crate::trie::Trie;

verus! {

/// The run context: subcommand arguments merged with the settings value.
pub struct MergedSettings {
    pub args: ContextData,
    pub settings: Settings,
}

impl MergedSettings {
    pub fn new(args: ContextData, settings: Settings) -> (r: Self)
        ensures
            r.args == args,
            r.settings == settings,
    {
        MergedSettings { args, settings }
    }

    /// The names of the active base dictionaries: the settings list, then
    /// the extra dictionaries from the arguments.
    pub fn base_dictionaries(&self) -> (r: Vec<String>)
        ensures
            r@.len() == self.settings.dictionaries@.len() + self.args.extra_dictionaries@.len(),
            forall|i: int|
                0 <= i < self.settings.dictionaries@.len() ==> (#[trigger] r@[i])@
                    == self.settings.dictionaries@[i].spec_name(),
            forall|i: int|
                0 <= i < self.args.extra_dictionaries@.len() ==> (#[trigger] r@[self.settings.dictionaries@.len() + i])@ == self.args.extra_dictionaries@[i]@,
    {
        let mut out: Vec<String> = Vec::new();
        let mut i: usize = 0;
        while i < self.settings.dictionaries.len()
            invariant
                i <= self.settings.dictionaries@.len(),
                out@.len() == i,
                forall|j: int|
                    0 <= j < i ==> (#[trigger] out@[j])@
                        == self.settings.dictionaries@[j].spec_name(),
            decreases self.settings.dictionaries@.len() - i,
        {
            out.push(self.settings.dictionaries[i].name());
            i = i + 1;
        }
        let mut k: usize = 0;
        while k < self.args.extra_dictionaries.len()
            invariant
                k <= self.args.extra_dictionaries@.len(),
                out@.len() == self.settings.dictionaries@.len() + k,
                forall|j: int|
                    0 <= j < self.settings.dictionaries@.len() ==> (#[trigger] out@[j])@
                        == self.settings.dictionaries@[j].spec_name(),
                forall|j: int|
                    0 <= j < k ==> (#[trigger] out@[self.settings.dictionaries@.len() + j])@
                        == self.args.extra_dictionaries@[j]@,
            decreases self.args.extra_dictionaries@.len() - k,
        {
            out.push(self.args.extra_dictionaries[k].clone());
            k = k + 1;
        }
        out
    }

    pub fn verbose(&self) -> (r: bool)
        ensures
            r == self.args.verbose,
    {
        self.args.verbose
    }

    pub fn jobs(&self) -> (r: Option<usize>)
        ensures
            r == self.args.jobs,
    {
        self.args.jobs
    }
}

/// The value registered under a name, from the newest entry.
pub open spec fn reg_lookup(es: Seq<(String, Arc<Trie>)>, name: Seq<char>) -> Option<Arc<Trie>>
    decreases es.len(),
{
    if es.len() == 0 {
        None
    } else if es[0].0@ == name {
        Some(es[0].1)
    } else {
        reg_lookup(es.drop_first(), name)
    }
}

/// The name-to-index map: the loader fills it, then workers only read it.
pub struct DictionaryRegistry {
    pub entries: Vec<(String, Arc<Trie>)>,
}

impl DictionaryRegistry {
    pub fn new() -> (r: Self)
        ensures
            r.entries@.len() == 0,
    {
        DictionaryRegistry { entries: Vec::new() }
    }

    /// Register an index under a name; a newer entry wins.
    pub fn insert(&mut self, name: String, trie: Arc<Trie>)
        ensures
            forall|n: Seq<char>|
                #[trigger] reg_lookup(final(self).entries@, n) == if n == name@ {
                    Some(trie)
                } else {
                    reg_lookup(old(self).entries@, n)
                },
    {
        let ghost es0 = self.entries@;
        let ghost nv = name@;
        let ghost tv = trie;
        self.entries.insert(0, (name, trie));
        proof {
            let es1 = self.entries@;
            assert(es1[0].0@ == nv);
            assert(es1[0].1 == tv);
            assert(es1.drop_first() =~= es0);
            assert forall|n: Seq<char>| true implies #[trigger] reg_lookup(es1, n) == if n == nv {
                Some(tv)
            } else {
                reg_lookup(es0, n)
            } by {}
        }
    }

    pub fn get(&self, name: &str) -> (r: Option<Arc<Trie>>)
        ensures
            r == reg_lookup(self.entries@, name@),
    {
        let mut i: usize = 0;
        proof {
            assert(self.entries@.skip(0) =~= self.entries@);
        }
        while i < self.entries.len()
            invariant
                i <= self.entries@.len(),
                reg_lookup(self.entries@, name@) == reg_lookup(
                    self.entries@.skip(i as int),
                    name@,
                ),
            decreases self.entries@.len() - i,
        {
            proof {
                assert(self.entries@.skip(i as int)[0] == self.entries@[i as int]);
                assert(self.entries@.skip(i as int).drop_first() =~= self.entries@.skip(i + 1));
            }
            if str_eq_str(self.entries[i].0.as_str(), name) {
                return Some(self.entries[i].1.clone());
            }
            i = i + 1;
        }
        proof {
            assert(self.entries@.skip(i as int) =~= Seq::<(String, Arc<Trie>)>::empty());
        }
        None
    }
}

/// Whether the list holds the string.
pub fn list_contains(v: &Vec<String>, s: &str) -> (r: bool)
    ensures
        r == exists|i: int| 0 <= i < v@.len() && (#[trigger] v@[i])@ == s@,
{
    let mut i: usize = 0;
    while i < v.len()
        invariant
            i <= v@.len(),
            forall|j: int| 0 <= j < i ==> (#[trigger] v@[j])@ != s@,
        decreases v@.len() - i,
    {
        if str_eq_str(v[i].as_str(), s) {
            return true;
        }
        i = i + 1;
    }
    false
}

/// Whether any advertised name of a dictionary is in the active base list;
/// a dictionary whose names miss the list is not loaded.
pub fn should_load(names: &Vec<String>, base: &Vec<String>) -> (r: bool)
    ensures
        r == exists|i: int, j: int|
            0 <= i < names@.len() && 0 <= j < base@.len() && (#[trigger] names@[i])@ == (
            #[trigger] base@[j])@,
{
    let mut i: usize = 0;
    while i < names.len()
        invariant
            i <= names@.len(),
            forall|ii: int, j: int|
                0 <= ii < i && 0 <= j < base@.len() ==> (#[trigger] names@[ii])@ != (
                #[trigger] base@[j])@,
        decreases names@.len() - i,
    {
        if list_contains(base, names[i].as_str()) {
            return true;
        }
        i = i + 1;
    }
    false
}

/// Why the pipeline cannot go on.
#[derive(Clone, Copy, Debug, PartialEq, Eq, Structural)]
pub enum PipelineError {
    /// A base dictionary is not in the registry, though the loader finished.
    MissingDictionary,
}

/// The per-file index union: the registered index of every base name, in
/// order, then the custom words index.
pub fn get_multi_trie(
    base: &Vec<String>,
    registry: &DictionaryRegistry,
    custom: Arc<Trie>,
) -> (r: Result<MultiTrie, PipelineError>)
    ensures
        match r {
            Result::Ok(mt) => {
                &&& mt.inner@.len() == base@.len() + 1
                &&& forall|i: int|
                    0 <= i < base@.len() ==> reg_lookup(
                        registry.entries@,
                        (#[trigger] base@[i])@,
                    ) == Some(mt.inner@[i])
                &&& mt.inner@[base@.len() as int] == custom
            },
            Result::Err(_) => exists|i: int|
                0 <= i < base@.len() && reg_lookup(
                    registry.entries@,
                    (#[trigger] base@[i])@,
                ) is None,
        },
{
    let mut mt = MultiTrie::new();
    let mut i: usize = 0;
    while i < base.len()
        invariant
            i <= base@.len(),
            mt.inner@.len() == i,
            forall|j: int|
                0 <= j < i ==> reg_lookup(registry.entries@, (#[trigger] base@[j])@) == Some(
                    mt.inner@[j],
                ),
        decreases base@.len() - i,
    {
        match registry.get(base[i].as_str()) {
            Some(t) => {
                mt.push(t);
            },
            None => {
                return Err(PipelineError::MissingDictionary);
            },
        }
        i = i + 1;
    }
    mt.push(custom);
    Ok(mt)
}

/// One checked file: its name and the reported typos.
pub struct FileResult {
    pub file: String,
    pub typos: Vec<Typo>,
}

/// The sequential meaning of the worker pool: every queued file checked
/// against the index union, in queue order.  The concurrent runner must
/// deliver exactly these results, in some arrival order.
pub fn check_files(files: &Vec<(String, String)>, words: &MultiTrie) -> (r: Vec<FileResult>)
    ensures
        r@.len() == files@.len(),
        forall|i: int|
            0 <= i < r@.len() ==> (#[trigger] r@[i]).file@ == files@[i].0@ && (forall|k: int|
                0 <= k < r@[i].typos@.len() ==> text_typo_ok(
                    words,
                    files@[i].1@,
                    #[trigger] r@[i].typos@[k],
                )) && text_reports_complete(words, files@[i].1@, r@[i].typos@),
    {
    let mut out: Vec<FileResult> = Vec::new();
    let mut i: usize = 0;
    while i < files.len()
        invariant
            i <= files@.len(),
            out@.len() == i,
            forall|j: int|
                0 <= j < i ==> (#[trigger] out@[j]).file@ == files@[j].0@ && (forall|k: int|
                    0 <= k < out@[j].typos@.len() ==> text_typo_ok(
                        words,
                        files@[j].1@,
                        #[trigger] out@[j].typos@[k],
                    )) && text_reports_complete(words, files@[j].1@, out@[j].typos@),
        decreases files@.len() - i,
    {
        let typos = handle_text(words, files[i].1.as_str());
        out.push(FileResult { file: files[i].0.clone(), typos });
        i = i + 1;
    }
    out
}

/// Law: with a non-empty file queue, checking yields at least one result;
/// the bounded-time half of the claim is about the scheduler and stays
/// outside the verified library.
pub proof fn lemma_pipeline_progress(results: Seq<FileResult>, files: Seq<(String, String)>)
    requires
        results.len() == files.len(),
        files.len() > 0,
    ensures
        results.len() > 0,
{
}

} // verus!
