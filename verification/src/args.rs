//! Plain argument records for the subcommands; parsing the command line is
//! left to the surrounding program.
use vstd::prelude::*;

verus! {

#[derive(Clone, Copy, Debug, PartialEq, Eq, Structural)]
pub enum OutputFormat {
    /// JSON output
    Json,
    /// Text output
    Text,
}

/// The common record handed from a subcommand's arguments to the run context.
#[derive(Clone, Debug)]
pub struct ContextData {
    pub dir: String,
    pub verbose: bool,
    pub extra_dictionaries: Vec<String>,
    pub exclude: Vec<String>,
    pub max_depth: Option<usize>,
    pub follow_symlinks: bool,
    pub max_filesize: Option<u64>,
    pub jobs: Option<usize>,
    pub settings: Option<String>,
    pub output: Option<OutputFormat>,
}

/// What any checking subcommand's arguments provide.
pub trait ContextArgs {
    fn dir(&self) -> String;

    fn verbose(&self) -> bool;

    fn extra_dictionaries(&self) -> Vec<String>;

    fn exclude(&self) -> Vec<String>;

    fn max_depth(&self) -> Option<usize>;

    fn follow_symlinks(&self) -> bool;

    fn max_filesize(&self) -> Option<u64>;

    fn jobs(&self) -> Option<usize>;

    fn settings(&self) -> Option<String>;

    fn output(&self) -> Option<OutputFormat>;
}

#[derive(Clone, Debug)]
pub struct CheckArgs {
    /// The path to the folder to search
    pub dir: String,
    pub glob: Option<String>,
    /// Verbose output
    pub verbose: bool,
    pub progress: bool,
    /// Which files/folders to exclude from the search
    pub exclude: Vec<String>,
    pub extra_dictionaries: Vec<String>,
    pub max_depth: Option<usize>,
    pub follow_symlinks: bool,
    pub max_filesize: Option<u64>,
    pub jobs: Option<usize>,
    pub settings: Option<String>,
    pub output: Option<OutputFormat>,
}

impl ContextArgs for CheckArgs {
    fn dir(&self) -> String {
        self.dir.clone()
    }

    fn verbose(&self) -> bool {
        self.verbose
    }

    fn extra_dictionaries(&self) -> Vec<String> {
        self.extra_dictionaries.clone()
    }

    fn exclude(&self) -> Vec<String> {
        self.exclude.clone()
    }

    fn max_depth(&self) -> Option<usize> {
        self.max_depth
    }

    fn follow_symlinks(&self) -> bool {
        self.follow_symlinks
    }

    fn max_filesize(&self) -> Option<u64> {
        self.max_filesize
    }

    fn jobs(&self) -> Option<usize> {
        self.jobs
    }

    fn settings(&self) -> Option<String> {
        self.settings.clone()
    }

    fn output(&self) -> Option<OutputFormat> {
        self.output
    }
}

#[derive(Clone, Debug)]
pub struct TraceArgs {
    pub word: String,
    /// The path to the folder to search
    pub dir: String,
    pub glob: Option<String>,
    /// Verbose output
    pub verbose: bool,
    pub settings: Option<String>,
    pub output: Option<OutputFormat>,
}

impl ContextArgs for TraceArgs {
    fn dir(&self) -> String {
        self.dir.clone()
    }

    fn verbose(&self) -> bool {
        self.verbose
    }

    fn extra_dictionaries(&self) -> Vec<String> {
        Vec::new()
    }

    fn exclude(&self) -> Vec<String> {
        Vec::new()
    }

    fn max_depth(&self) -> Option<usize> {
        None
    }

    fn follow_symlinks(&self) -> bool {
        true
    }

    fn max_filesize(&self) -> Option<u64> {
        None
    }

    fn jobs(&self) -> Option<usize> {
        None
    }

    fn settings(&self) -> Option<String> {
        self.settings.clone()
    }

    fn output(&self) -> Option<OutputFormat> {
        self.output
    }
}

/// Collect any implementation's answers into the plain record.
pub fn context_data<A: ContextArgs>(a: &A) -> ContextData {
    ContextData {
        dir: a.dir(),
        verbose: a.verbose(),
        extra_dictionaries: a.extra_dictionaries(),
        exclude: a.exclude(),
        max_depth: a.max_depth(),
        follow_symlinks: a.follow_symlinks(),
        max_filesize: a.max_filesize(),
        jobs: a.jobs(),
        settings: a.settings(),
        output: a.output(),
    }
}

#[derive(Clone, Debug)]
pub struct InstallArgs {
    pub uri: String,
    pub yes: bool,
}

#[derive(Clone, Copy, Debug, PartialEq, Eq, Structural)]
pub enum CacheCommand {
    /// Compile the wordlists
    Build,
    /// Clear the cache
    Clear,
    /// List the cached entries
    List,
}

#[derive(Clone, Debug)]
pub enum CliArgs {
    /// Check for typos
    Check(CheckArgs),
    Cache(CacheCommand),
    Trace(TraceArgs),
    Install(InstallArgs),
    /// Import cspell dictionaries
    ImportCspell,
}

} // verus!
