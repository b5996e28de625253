//! What is decided for one link: where its fragment is fetched from, and what
//! is written on each side once both were read.

use vstd::prelude::*;
use vstd::string::{StringExecFns, StringSliceAdditionalSpecFns};
use crate::age::{age_plaintext, encrypt_under, CryptError};
use crate::appender::{
    append_filtered, branch_of, fragment_lines, get_from_appender, reconciled, secret_view,
    source_branch,
};
use crate::config::{has_feature, Config, Feature, GitAppender, GitConfig, GitLink};
use crate::filter::ContentFilter;
use crate::blob::lines_of;
use crate::line::line_views;
use crate::pattern::{all_compile, first_malformed, ConfigError};
use crate::text::{encoded, string_views};

verus! {

/// Why nothing can be fetched for a file.
#[derive(Clone, Copy, Debug, PartialEq, Eq, Structural)]
pub enum LookupError {
    /// The configuration has no appender at the repository location.
    AppenderNotFound,
    /// No link of the appender names the file as its source.
    FileNotInConfig,
}

/// What to fetch in order to read a file of the history.
pub struct FetchPlan<'a> {
    /// The repository to open.
    pub repository: String,
    /// The account to log in with, if the appender names one.
    pub git_config: &'a Option<GitConfig>,
    /// The branch to fetch.
    pub source_branch: String,
}

/// The repository locations of a configuration, in its order.
pub open spec fn locations(configs: Config) -> Seq<Seq<char>> {
    configs.appenders@.map_values(|entry: (String, GitAppender)| entry.0@)
}

/// The source paths of a list of links, in its order.
pub open spec fn sources(links: Seq<(String, GitLink)>) -> Seq<Seq<char>> {
    links.map_values(|entry: (String, GitLink)| entry.1.source_path@)
}

/// `wanted` stands at `i` in the list, and nowhere before.
pub open spec fn first_at(texts: Seq<Seq<char>>, wanted: Seq<char>, i: int) -> bool {
    &&& 0 <= i < texts.len()
    &&& texts[i] == wanted
    &&& forall|k: int| 0 <= k < i ==> texts[k] != wanted
}

/// The plan fetches for the link at `j` of the appender at `i`.
pub open spec fn plans_for(plan: FetchPlan, configs: Config, i: int, j: int) -> bool {
    let entry = configs.appenders@[i];
    &&& plan.repository@ == entry.0@ + "/.git"@
    &&& *plan.git_config == entry.1.git_config
    &&& plan.source_branch@ == branch_of(entry.1.links@[j].1)
}

/// The place of the first appender at a repository location.
fn find_appender(configs: &Config, repository_location: &String) -> (found: Option<usize>)
    ensures
        match found {
            Some(i) => first_at(locations(*configs), repository_location@, i as int),
            None => !locations(*configs).contains(repository_location@),
        },
{
    let mut i: usize = 0;
    while i < configs.appenders.len()
        invariant
            i <= configs.appenders.len(),
            forall|k: int| 0 <= k < i ==> locations(*configs)[k] != repository_location@,
        decreases configs.appenders.len() - i,
    {
        if configs.appenders[i].0 == *repository_location {
            return Some(i);
        }
        i += 1;
    }
    None
}

/// The place of the first link whose source is the file.
fn find_link(links: &Vec<(String, GitLink)>, file: &String) -> (found: Option<usize>)
    ensures
        match found {
            Some(j) => first_at(sources(links@), file@, j as int),
            None => !sources(links@).contains(file@),
        },
{
    let mut j: usize = 0;
    while j < links.len()
        invariant
            j <= links.len(),
            forall|k: int| 0 <= k < j ==> sources(links@)[k] != file@,
        decreases links.len() - j,
    {
        if links[j].1.source_path == *file {
            return Some(j);
        }
        j += 1;
    }
    None
}

/// Looks a file of the history up in the configuration, and says what to
/// fetch in order to read it: the repository of the first appender at the
/// location, and the branch of its first link whose source is the file.
pub fn decrypt_file<'a>(configs: &'a Config, repository_location: &String, file: &String) -> (outcome:
    Result<FetchPlan<'a>, LookupError>)
    ensures
        match outcome {
            Ok(plan) => exists|i: int, j: int|
                #![trigger locations(*configs)[i], sources(configs.appenders@[i].1.links@)[j]]
                first_at(locations(*configs), repository_location@, i) && first_at(
                    sources(configs.appenders@[i].1.links@),
                    file@,
                    j,
                ) && plans_for(plan, *configs, i, j),
            Err(LookupError::AppenderNotFound) => !locations(*configs).contains(
                repository_location@,
            ),
            Err(LookupError::FileNotInConfig) => exists|i: int|
                #![trigger locations(*configs)[i]]
                first_at(locations(*configs), repository_location@, i) && !sources(
                    configs.appenders@[i].1.links@,
                ).contains(file@),
        },
{
    let i = match find_appender(configs, repository_location) {
        Some(i) => i,
        None => {
            return Err(LookupError::AppenderNotFound);
        },
    };
    let entry = &configs.appenders[i];
    let j = match find_link(&entry.1.links, file) {
        Some(j) => j,
        None => {
            return Err(LookupError::FileNotInConfig);
        },
    };
    let plan = FetchPlan {
        repository: entry.0.clone().concat("/.git"),
        git_config: &entry.1.git_config,
        source_branch: source_branch(&entry.1.links[j].1),
    };
    proof {
        assert(plans_for(plan, *configs, i as int, j as int));
    }
    Ok(plan)
}

/// Why a link could not be processed.
#[derive(Debug)]
pub enum ProcessError {
    /// The fragment could not be read or encrypted.
    Crypt(CryptError),
    /// The link's configuration is wrong.
    Config(ConfigError),
}

/// What is to be done for a link once both sides were reconciled.
pub struct FileOutcome {
    /// What to write to the working file, if anything.
    pub local_content: Option<Vec<u8>>,
    /// What to write to the fragment's file in the repository, if anything.
    pub remote_content: Option<Vec<u8>>,
    /// The path of the fragment's file in the working tree of the repository.
    pub remote_path: String,
    /// The paths in the repository that changed.
    pub files: Vec<String>,
    /// Whether a commit is needed.
    pub needs_commit: bool,
}

/// The lines that a link removes.
pub open spec fn removal_of(link: GitLink) -> Seq<Seq<char>> {
    match link.remove_lines {
        Some(lines) => string_views(lines@),
        None => Seq::<Seq<char>>::empty(),
    }
}

/// The exclusion patterns of a link.
pub open spec fn patterns_of(link: GitLink) -> Seq<Seq<char>> {
    match link.exclude_patterns {
        Some(patterns) => string_views(patterns@),
        None => Seq::<Seq<char>>::empty(),
    }
}

/// Whether a link folds continued lines.
pub open spec fn folds(link: GitLink) -> bool {
    match link.features {
        Some(features) => features@.contains(Feature::RemoveMultilinesBash),
        None => false,
    }
}

/// The updates that a link owes to its two sides: to the local side, then to
/// the remote side.
pub open spec fn updates_of(
    link: GitLink,
    local: Seq<Seq<u8>>,
    fragment: Seq<u8>,
    passphrase: Option<Seq<char>>,
) -> (Option<Seq<u8>>, Option<Seq<u8>>) {
    reconciled(
        fragment_lines(fragment, passphrase),
        local,
        encoded(removal_of(link)),
        patterns_of(link),
        folds(link),
    )
}

/// What a fragment's file may hold for an update: the update itself where
/// the link has no passphrase, else a ciphertext, which is not empty and
/// holds the update.
pub open spec fn stores(
    written: Option<Vec<u8>>,
    update: Option<Seq<u8>>,
    passphrase: Option<Seq<char>>,
) -> bool {
    match update {
        None => written is None,
        Some(content) => match written {
            None => false,
            Some(bytes) => match passphrase {
                None => bytes@ == content,
                Some(secret) => bytes@.len() > 0 && age_plaintext(bytes@, secret) == content,
            },
        },
    }
}

/// A fragment's file that stores an update is read back as the lines of the
/// update.
pub proof fn lemma_stored_fragment_reads_back(
    written: Option<Vec<u8>>,
    update: Seq<u8>,
    passphrase: Option<Seq<char>>,
)
    requires
        stores(written, Some(update), passphrase),
    ensures
        written matches Some(bytes) && fragment_lines(bytes@, passphrase) == lines_of(update),
{
}

/// The outcome carries out the updates of a link.
pub open spec fn carries_out(
    done: FileOutcome,
    updates: (Option<Seq<u8>>, Option<Seq<u8>>),
    passphrase: Option<Seq<char>>,
    repo_file_path: Seq<char>,
    git_folder: Seq<char>,
) -> bool {
    &&& match done.local_content {
        Some(content) => updates.0 == Some(content@),
        None => updates.0 is None,
    }
    &&& stores(done.remote_content, updates.1, passphrase)
    &&& done.remote_path@ == git_folder + "/"@ + repo_file_path
    &&& string_views(done.files@) == if updates.1 is Some {
        seq![repo_file_path]
    } else {
        Seq::<Seq<char>>::empty()
    }
    &&& done.needs_commit == updates.1 is Some
}

/// The filter that a link asks for.
fn filter_of(file_appender: &GitLink) -> (outcome: Result<ContentFilter, ConfigError>)
    ensures
        match outcome {
            Ok(filter) => all_compile(patterns_of(*file_appender)) && filter.removal() == encoded(
                removal_of(*file_appender),
            ) && filter.patterns() == patterns_of(*file_appender),
            Err(ConfigError::MalformedPattern(given)) => exists|i: int|
                #![trigger patterns_of(*file_appender)[i]]
                first_malformed(patterns_of(*file_appender), i) && given@ == patterns_of(
                    *file_appender,
                )[i],
        },
{
    let none: Vec<String> = Vec::new();
    proof {
        assert(string_views(none@) =~= Seq::<Seq<char>>::empty());
    }
    let remove_lines = match &file_appender.remove_lines {
        Some(lines) => lines,
        None => &none,
    };
    let exclude_patterns = match &file_appender.exclude_patterns {
        Some(patterns) => patterns,
        None => &none,
    };
    proof {
        assert(string_views(remove_lines@) == removal_of(*file_appender));
        assert(string_views(exclude_patterns@) == patterns_of(*file_appender));
    }
    ContentFilter::new(remove_lines, exclude_patterns)
}

/// Whether a link folds continued lines.
fn folds_lines(file_appender: &GitLink) -> (fold: bool)
    ensures
        fold == folds(*file_appender),
{
    match &file_appender.features {
        Some(features) => has_feature(features, Feature::RemoveMultilinesBash),
        None => false,
    }
}

/// Reconciles a working file with its fragment and says what to write.
///
/// `rw_contents` holds the lines of the working file, `ro_content` the blob of
/// the fragment as the history has it, and `passphrase` what the link's
/// password file holds, where the link names one. A malformed exclusion
/// pattern is reported before anything is read. After that a link without a
/// passphrase cannot fail. One with a passphrase fails only where a fragment
/// that is not empty does not decrypt, or where the update of the remote side
/// does not encrypt.
pub fn process_file(
    file_appender: &GitLink,
    rw_contents: Vec<Vec<u8>>,
    ro_content: Vec<u8>,
    passphrase: Option<&str>,
    repo_file_path: String,
    git_folder: &String,
) -> (outcome: Result<FileOutcome, ProcessError>)
    ensures
        outcome matches Err(ProcessError::Config(_)) <==> !all_compile(patterns_of(*file_appender)),
        all_compile(patterns_of(*file_appender)) && (passphrase is None || (ro_content@.len() == 0
            && updates_of(
            *file_appender,
            line_views(rw_contents@),
            ro_content@,
            secret_view(passphrase),
        ).1 is None)) ==> outcome is Ok,
        match outcome {
            Ok(done) => all_compile(patterns_of(*file_appender)) && carries_out(
                done,
                updates_of(
                    *file_appender,
                    line_views(rw_contents@),
                    ro_content@,
                    secret_view(passphrase),
                ),
                secret_view(passphrase),
                repo_file_path@,
                git_folder@,
            ),
            Err(ProcessError::Config(ConfigError::MalformedPattern(given))) => exists|i: int|
                #![trigger patterns_of(*file_appender)[i]]
                first_malformed(patterns_of(*file_appender), i) && given@ == patterns_of(
                    *file_appender,
                )[i],
            Err(ProcessError::Crypt(error)) => passphrase is Some && all_compile(
                patterns_of(*file_appender),
            ) && match error {
                CryptError::Decryption => ro_content@.len() > 0,
                CryptError::Encryption => updates_of(
                    *file_appender,
                    line_views(rw_contents@),
                    ro_content@,
                    secret_view(passphrase),
                ).1 is Some,
            },
        },
{
    let filter = match filter_of(file_appender) {
        Ok(filter) => filter,
        Err(error) => {
            return Err(ProcessError::Config(error));
        },
    };
    let remote_lines = match get_from_appender(ro_content, passphrase) {
        Ok(lines) => lines,
        Err(error) => {
            return Err(ProcessError::Crypt(error));
        },
    };
    let (local_content, update) = append_filtered(
        remote_lines,
        rw_contents,
        &filter,
        folds_lines(file_appender),
    );
    let needs_commit = update.is_some();
    let remote_content = match update {
        Some(content) => match passphrase {
            Some(secret) => match encrypt_under(&content, secret) {
                Ok(ciphertext) => Some(ciphertext),
                Err(error) => {
                    return Err(ProcessError::Crypt(error));
                },
            },
            None => Some(content),
        },
        None => None,
    };
    let remote_path = git_folder.clone().concat("/").concat(repo_file_path.as_str());
    let mut files: Vec<String> = Vec::new();
    if needs_commit {
        files.push(repo_file_path);
    }
    proof {
        if needs_commit {
            assert(string_views(files@) =~= seq![repo_file_path@]);
        } else {
            assert(string_views(files@) =~= Seq::<Seq<char>>::empty());
        }
    }
    Ok(FileOutcome { local_content, remote_content, remote_path, files, needs_commit })
}

/// Whether a run takes the appender at a location: every appender where no
/// location was asked for, else the one at the location that was.
pub fn is_selected(location: &String, include_appender: &Option<String>) -> (taken: bool)
    ensures
        taken == match include_appender {
            Some(wanted) => wanted@ == location@,
            None => true,
        },
{
    match include_appender {
        Some(wanted) => *wanted == *location,
        None => true,
    }
}

/// The path, in the repository, of the fragment linked to a file of a linked
/// folder: the folder's source path, then the file's path within the folder.
pub fn fragment_path(source_path: &str, local_path: &str) -> (path: String)
    ensures
        path@ == source_path@ + "/"@ + local_path@,
{
    String::from_str(source_path).concat("/").concat(local_path)
}

/// The bytes `.git`, by which the files of a repository's own folder are told.
pub open spec fn git_marker() -> Seq<u8> {
    seq![46u8, 103u8, 105u8, 116u8]
}

/// `needle` stands in `hay` at `at`.
pub open spec fn stands_at(hay: Seq<u8>, needle: Seq<u8>, at: int) -> bool {
    0 <= at && at + needle.len() <= hay.len() && hay.subrange(at, at + needle.len()) == needle
}

/// `needle` stands somewhere in `hay`.
pub open spec fn holds(hay: Seq<u8>, needle: Seq<u8>) -> bool {
    exists|at: int| stands_at(hay, needle, at)
}

/// Whether a path of a linked folder is left out because `.git` stands
/// somewhere in it.
pub fn in_git_folder(path: &str) -> (inside: bool)
    ensures
        inside == holds(vstd::utf8::encode_utf8(path@), git_marker()),
{
    let hay = path.as_bytes();
    let n = hay.len();
    let ghost bytes = hay@;
    proof {
        assert(bytes == path.spec_bytes());
    }
    if n < 4 {
        assert forall|at: int| !stands_at(bytes, git_marker(), at) by {}
        return false;
    }
    let mut at: usize = 0;
    while at <= n - 4
        invariant
            n == hay.len(),
            bytes == hay@,
            bytes == vstd::utf8::encode_utf8(path@),
            n >= 4,
            at <= n - 3,
            forall|k: int| 0 <= k < at ==> !stands_at(bytes, git_marker(), k),
        decreases n - at,
    {
        if hay[at] == 46 && hay[at + 1] == 103 && hay[at + 2] == 105 && hay[at + 3] == 116 {
            proof {
                assert(bytes.subrange(at as int, at + 4) =~= git_marker());
                assert(stands_at(bytes, git_marker(), at as int));
            }
            return true;
        }
        proof {
            let found = bytes.subrange(at as int, at + 4);
            if found == git_marker() {
                assert(found[0] == 46 && found[1] == 103 && found[2] == 105 && found[3] == 116);
            }
        }
        at += 1;
    }
    proof {
        assert forall|k: int| !stands_at(bytes, git_marker(), k) by {}
    }
    false
}

/// Every exclusion pattern of every link of the list compiles.
pub open spec fn links_compile(links: Seq<(String, GitLink)>) -> bool {
    forall|j: int| 0 <= j < links.len() ==> all_compile(patterns_of((#[trigger] links[j]).1))
}

/// Every exclusion pattern of the configuration compiles.
pub open spec fn config_compiles(configs: Config) -> bool {
    forall|i: int|
        0 <= i < configs.appenders@.len() ==> links_compile(
            (#[trigger] configs.appenders@[i]).1.links@,
        ) && links_compile(configs.appenders@[i].1.folder_links@)
}

/// Tests the exclusion patterns of a list of links.
fn check_links(links: &Vec<(String, GitLink)>) -> (outcome: Result<(), ConfigError>)
    ensures
        match outcome {
            Ok(_) => links_compile(links@),
            Err(ConfigError::MalformedPattern(given)) => exists|j: int, i: int|
                #![trigger patterns_of(links@[j].1)[i]]
                0 <= j < links.len() && first_malformed(patterns_of(links@[j].1), i) && given@
                    == patterns_of(links@[j].1)[i],
        },
{
    let mut j: usize = 0;
    while j < links.len()
        invariant
            j <= links.len(),
            links_compile(links@.take(j as int)),
        decreases links.len() - j,
    {
        match filter_of(&links[j].1) {
            Ok(_) => {
                proof {
                    assert forall|k: int| 0 <= k < j + 1 implies all_compile(
                        patterns_of((#[trigger] links@.take(j + 1)[k]).1),
                    ) by {
                        if k < j {
                            assert(links@.take(j as int)[k] == links@[k]);
                        }
                    }
                }
            },
            Err(error) => {
                return Err(error);
            },
        }
        j += 1;
    }
    proof {
        assert(links@.take(j as int) =~= links@);
    }
    Ok(())
}

/// Tests every exclusion pattern of a configuration, so that a malformed one
/// is reported before any link is run. The error names a pattern that does
/// not compile.
pub fn check_config(configs: &Config) -> (outcome: Result<(), ConfigError>)
    ensures
        match outcome {
            Ok(_) => config_compiles(*configs),
            Err(ConfigError::MalformedPattern(given)) => !config_compiles(*configs)
                && !crate::pattern::pattern_compiles(given@),
        },
{
    let mut i: usize = 0;
    while i < configs.appenders.len()
        invariant
            i <= configs.appenders.len(),
            forall|k: int|
                0 <= k < i ==> links_compile((#[trigger] configs.appenders@[k]).1.links@)
                    && links_compile(configs.appenders@[k].1.folder_links@),
        decreases configs.appenders.len() - i,
    {
        let appender = &configs.appenders[i].1;
        match check_links(&appender.links) {
            Ok(_) => {},
            Err(error) => {
                proof {
                    assert(!links_compile(configs.appenders@[i as int].1.links@));
                }
                return Err(error);
            },
        }
        match check_links(&appender.folder_links) {
            Ok(_) => {},
            Err(error) => {
                proof {
                    assert(!links_compile(configs.appenders@[i as int].1.folder_links@));
                }
                return Err(error);
            },
        }
        i += 1;
    }
    Ok(())
}

} // verus!
