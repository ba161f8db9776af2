//! The configured-settings value: dictionary names, custom dictionary
//! definitions, ignore globs and extra allow words.  Loading the settings
//! file is left to the surrounding program; this module holds the plain
//! values and the path and name rules.
use vstd::prelude::*;

use vstd::string::StringExecFns;

use crate::hash::{blake3_of, path_hash_hex};
use crate::text::{hex_of, string_from_chars, chars_of};

verus! {

#[derive(Clone, Debug)]
pub enum CustomDictionaryDefinitionPath {
    Simple(String),
}

impl CustomDictionaryDefinitionPath {
    pub fn path(&self) -> (r: String)
        ensures
            ({
                match self {
                    CustomDictionaryDefinitionPath::Simple(p) => r@ == p@,
                }
            }),
    {
        match self {
            Self::Simple(path) => path.clone(),
        }
    }
}

#[derive(Clone, Debug)]
pub enum CustomDictionaryDefinitionGitIdent {
    Branch(String),
    Tag(String),
    Commit(String),
}

#[derive(Clone, Debug)]
pub enum CustomDictionaryDefinitionGit {
    Simple(String),
    Custom { url: String, identity: CustomDictionaryDefinitionGitIdent },
}

impl CustomDictionaryDefinitionGit {
    pub open spec fn spec_url(&self) -> Seq<char> {
        match self {
            CustomDictionaryDefinitionGit::Simple(u) => u@,
            CustomDictionaryDefinitionGit::Custom { url, .. } => url@,
        }
    }

    pub fn url(&self) -> (r: String)
        ensures
            r@ == self.spec_url(),
    {
        match self {
            Self::Simple(url) => url.clone(),
            Self::Custom { url, .. } => url.clone(),
        }
    }

    /// The checkout directory: the git root joined with the digest of the
    /// repository URL.
    pub fn path(&self, git_dir: &str) -> (r: String)
        ensures
            r@ == git_dir@ + "/"@ + hex_of(blake3_of(vstd::utf8::encode_utf8(self.spec_url()))),
    {
        let url = self.url();
        let hash_hex = path_hash_hex(url.as_str());
        let mut out = chars_of(git_dir);
        let sep = chars_of("/");
        let mut i: usize = 0;
        while i < sep.len()
            invariant
                i <= sep@.len(),
                out@ == git_dir@ + sep@.take(i as int),
            decreases sep.len() - i,
        {
            out.push(sep[i]);
            i = i + 1;
            proof {
                assert(git_dir@ + sep@.take(i as int) =~= (git_dir@ + sep@.take(i - 1)).push(
                    sep@[i - 1],
                ));
            }
        }
        proof {
            assert(sep@.take(sep@.len() as int) =~= sep@);
        }
        let hx = chars_of(hash_hex.as_str());
        let mut j: usize = 0;
        while j < hx.len()
            invariant
                j <= hx@.len(),
                out@ == git_dir@ + sep@ + hx@.take(j as int),
            decreases hx.len() - j,
        {
            out.push(hx[j]);
            j = j + 1;
            proof {
                assert(git_dir@ + sep@ + hx@.take(j as int) =~= (git_dir@ + sep@ + hx@.take(
                    j - 1,
                )).push(hx@[j - 1]));
            }
        }
        proof {
            assert(hx@.take(hx@.len() as int) =~= hx@);
            assert(sep@ == "/"@);
        }
        string_from_chars(&out)
    }
}

#[derive(Clone, Debug)]
pub enum CustomDictionaryDefinitionType {
    Path(CustomDictionaryDefinitionPath),
    Git(CustomDictionaryDefinitionGit),
}

impl CustomDictionaryDefinitionType {
    /// The on-disk location of the definition's word list.
    pub fn path(&self, git_dir: &str) -> (r: String)
        ensures
            ({
                match self {
                    CustomDictionaryDefinitionType::Path(p) => match p {
                        CustomDictionaryDefinitionPath::Simple(s) => r@ == s@,
                    },
                    CustomDictionaryDefinitionType::Git(g) => r@ == git_dir@ + "/"@ + hex_of(
                        blake3_of(vstd::utf8::encode_utf8(g.spec_url())),
                    ),
                }
            }),
    {
        match self {
            Self::Path(path) => path.path(),
            Self::Git(git) => git.path(git_dir),
        }
    }
}

#[derive(Clone, Debug)]
pub struct CustomDictionaryDefinition {
    pub name: String,
    pub aliases: Vec<String>,
    pub typ: CustomDictionaryDefinitionType,
    pub globs: Vec<String>,
}

impl CustomDictionaryDefinition {
    pub fn path(&self, git_dir: &str) -> (r: String)
        ensures
            ({
                match self.typ {
                    CustomDictionaryDefinitionType::Path(p) => match p {
                        CustomDictionaryDefinitionPath::Simple(s) => r@ == s@,
                    },
                    CustomDictionaryDefinitionType::Git(g) => r@ == git_dir@ + "/"@ + hex_of(
                        blake3_of(vstd::utf8::encode_utf8(g.spec_url())),
                    ),
                }
            }),
    {
        self.typ.path(git_dir)
    }
}

#[derive(Clone, Debug)]
pub enum DictionaryName {
    Simple(String),
    Detailed { name: String, globs: Vec<String> },
}

impl DictionaryName {
    pub open spec fn spec_name(&self) -> Seq<char> {
        match self {
            DictionaryName::Simple(n) => n@,
            DictionaryName::Detailed { name, .. } => name@,
        }
    }

    pub fn name(&self) -> (r: String)
        ensures
            r@ == self.spec_name(),
    {
        match self {
            Self::Simple(name) => name.clone(),
            Self::Detailed { name, .. } => name.clone(),
        }
    }
}

#[derive(Clone, Debug)]
pub struct Settings {
    pub dictionaries: Vec<DictionaryName>,
    pub dictionary_definitions: Vec<CustomDictionaryDefinition>,
    pub ignore_paths: Vec<String>,
    pub words: Vec<String>,
}

impl Settings {
    /// The default settings: the stock dictionary set and nothing custom.
    pub fn new() -> (r: Self)
        ensures
            r.dictionaries@.len() == 5,
            r.dictionaries@[0].spec_name() == "extra"@,
            r.dictionaries@[1].spec_name() == "en-US"@,
            r.dictionaries@[2].spec_name() == "software_terms"@,
            r.dictionaries@[3].spec_name() == "software_tools"@,
            r.dictionaries@[4].spec_name() == "words"@,
            r.dictionary_definitions@.len() == 0,
            r.ignore_paths@.len() == 0,
            r.words@.len() == 0,
    {
        let mut dictionaries: Vec<DictionaryName> = Vec::new();
        dictionaries.push(DictionaryName::Simple(String::from_str("extra")));
        dictionaries.push(DictionaryName::Simple(String::from_str("en-US")));
        dictionaries.push(DictionaryName::Simple(String::from_str("software_terms")));
        dictionaries.push(DictionaryName::Simple(String::from_str("software_tools")));
        dictionaries.push(DictionaryName::Simple(String::from_str("words")));
        Settings {
            dictionaries,
            dictionary_definitions: Vec::new(),
            ignore_paths: Vec::new(),
            words: Vec::new(),
        }
    }
}

} // verus!
