//! What a configuration file says: repositories, and for each the files and
//! folders linked to fragments of its history.

use vstd::prelude::*;

verus! {

/// An optional step that a link can switch on.
#[derive(Clone, Copy, Debug, PartialEq, Eq, Hash, Structural)]
pub enum Feature {
    /// Fold the lines that a trailing backslash continues into one line.
    RemoveMultilinesBash,
}

/// The whole configuration: each repository location with its appender.
#[derive(Clone, Debug, PartialEq, Eq)]
pub struct Config {
    pub appenders: Vec<(String, GitAppender)>,
}

/// One repository: how to log in, the links from local files to fragments,
/// and the links from local folders to folders of fragments, each with the
/// local path it starts from.
#[derive(Clone, Debug, PartialEq, Eq)]
pub struct GitAppender {
    pub git_config: Option<GitConfig>,
    pub links: Vec<(String, GitLink)>,
    pub folder_links: Vec<(String, GitLink)>,
}

/// One link between a local file or folder and a fragment of the history.
#[derive(Clone, Debug, PartialEq, Eq)]
pub struct GitLink {
    pub source_path: String,
    pub source_branch: Option<String>,
    pub password_file: Option<String>,
    pub remove_lines: Option<Vec<String>>,
    pub exclude_patterns: Option<Vec<String>>,
    pub features: Option<Vec<Feature>>,
}

/// The account used to reach the remote.
#[derive(Clone, Debug, PartialEq, Eq)]
pub struct GitConfig {
    pub username: String,
    pub token_file: String,
}

/// Whether a list of features holds the given one.
pub fn has_feature(features: &Vec<Feature>, wanted: Feature) -> (found: bool)
    ensures
        found == features@.contains(wanted),
{
    let mut i: usize = 0;
    while i < features.len()
        invariant
            i <= features.len(),
            forall|k: int| 0 <= k < i ==> features[k] != wanted,
        decreases features.len() - i,
    {
        if features[i] == wanted {
            return true;
        }
        i += 1;
    }
    false
}

} // verus!
