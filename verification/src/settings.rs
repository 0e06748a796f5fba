//! What a server is started with.

use vstd::prelude::*;
use vstd::string::*;

verus! {

/// The settings of one server.
#[derive(Debug)]
pub struct Settings {
    /// Path of the repository.
    pub repo: String,
    /// The branch whose history is served; the current head where there is none.
    pub branch: Option<String>,
    /// Whether the history of every reference is served.
    pub all: bool,
    pub depth: Option<usize>,
    /// The largest number of records on a page.
    pub page_size: usize,
    pub verbose: bool,
    pub listen_address: String,
    pub listen_port: u16,
    /// Names of directories that are passed over.
    pub ignore_dirs: Vec<String>,
}

/// What is asked for on the command line, but for the repository, whose path is settled first.
pub struct Options {
    pub branch: Option<String>,
    pub all: bool,
    pub depth: Option<usize>,
    pub page_size: usize,
    pub verbose: bool,
    pub listen_address: String,
    pub listen_port: u16,
    /// Further names of directories to pass over.
    pub ignore_dirs: Vec<String>,
}

/// The texts of a sequence of strings.
pub open spec fn texts(names: Seq<String>) -> Seq<Seq<char>> {
    names.map_values(|name: String| name@)
}

/// The names of the directories that are always passed over.
pub open spec fn default_ignored() -> Seq<Seq<char>> {
    seq![".hg"@, ".svn"@, ".git"@, ".bzr"@, "node_modules"@, "target"@]
}

/// The directories that are always passed over.
pub fn default_ignore_dirs() -> (names: Vec<String>)
    ensures
        texts(names@) == default_ignored(),
{
    let mut names: Vec<String> = Vec::new();
    names.push(String::from_str(".hg"));
    names.push(String::from_str(".svn"));
    names.push(String::from_str(".git"));
    names.push(String::from_str(".bzr"));
    names.push(String::from_str("node_modules"));
    names.push(String::from_str("target"));
    assert(texts(names@) =~= default_ignored());
    names
}

impl Settings {
    /// The settings for the repository at `repo` and for `options`: the directories passed over
    /// are the usual ones and then those that `options` names.
    pub fn try_from(repo: String, options: Options) -> (settings: Settings)
        ensures
            settings.repo == repo,
            settings.branch == options.branch,
            settings.all == options.all,
            settings.depth == options.depth,
            settings.page_size == options.page_size,
            settings.verbose == options.verbose,
            settings.listen_address == options.listen_address,
            settings.listen_port == options.listen_port,
            texts(settings.ignore_dirs@) == default_ignored() + texts(options.ignore_dirs@),
    {
        let Options {
            branch,
            all,
            depth,
            page_size,
            verbose,
            listen_address,
            listen_port,
            ignore_dirs,
        } = options;
        let mut ignore_dirs = ignore_dirs;
        let mut ignored = default_ignore_dirs();
        ignored.append(&mut ignore_dirs);
        assert(texts(ignored@) =~= default_ignored() + texts(options.ignore_dirs@));
        Settings {
            repo,
            branch,
            all,
            depth,
            page_size,
            verbose,
            listen_address,
            listen_port,
            ignore_dirs: ignored,
        }
    }
}

} // verus!
