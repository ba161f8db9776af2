//! A source-aware spell checker's core: compact word-indexes with fuzzy
//! lookup, the CSpell trie-stream decoder, the identifier analyzer, the
//! dictionary resolver with its content-hashed cache, and the decision
//! logic of the parallel check pipeline.
pub mod args;
pub mod code;
pub mod cspell;
pub mod dictionary;
pub mod hash;
pub mod multi_trie;
pub mod pipeline;
pub mod settings;
pub mod text;
pub mod trie;

pub use dictionary::Rule;
pub use multi_trie::MultiTrie;
pub use settings::Settings;
pub use trie::Trie;
