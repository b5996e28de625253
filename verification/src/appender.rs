//! The reconciliation of a local file with the fragment it is linked to.
//!
//! Each side is a collection of lines. What counts of a side is the set of its
//! lines that are not empty, after continued lines were folded where the link
//! asks for that. The two sets are merged, the merged set is filtered by the
//! link's rules, and every side whose set differs from the result is handed
//! the result as a blob: its lines in byte order, each ended by a newline.

use vstd::prelude::*;
use vstd::pervasive::unreached;
use vstd::slice::slice_subrange;
use crate::age::{age_plaintext, decrypt_under, decrypts, CryptError};
use crate::blob::{join_lines, joined, lines_of, split_lines, with_final_newline};
use crate::config::{has_feature, Feature, GitLink};
use crate::filter::{keeping, kept, not_empty, without_empty, ContentFilter};
use crate::git::{default_branch, default_branch_name, remote, tracking_branch};
use crate::line::{line_views, CONTINUATION, NEWLINE, SPACE};
use crate::line_set::{
    copy_of, lemma_filter_increasing, lemma_filter_members, sorted_lines, LineSet,
};
use crate::pattern::{all_compile, compile_patterns, first_malformed, ConfigError};
use crate::text::{encoded, string_views};

verus! {

/// The line ends with the continuation marker.
pub open spec fn continues(line: Seq<u8>) -> bool {
    line.len() > 0 && line.last() == CONTINUATION
}

/// What a physical line adds to the logical line it is part of: itself, or,
/// where it is continued, itself with a space in place of the marker.
pub open spec fn piece(line: Seq<u8>) -> Seq<u8> {
    if continues(line) {
        line.drop_last().push(SPACE)
    } else {
        line
    }
}

/// The logical lines of `lines`, where `begun` is the logical line that the
/// lines before them have begun and not ended. A logical line that the last
/// line leaves unended is given as it stands.
pub open spec fn folded_from(begun: Option<Seq<u8>>, lines: Seq<Seq<u8>>) -> Seq<Seq<u8>>
    decreases lines.len(),
{
    if lines.len() == 0 {
        match begun {
            Some(line) => seq![line],
            None => Seq::<Seq<u8>>::empty(),
        }
    } else {
        let logical = match begun {
            Some(line) => line + piece(lines[0]),
            None => piece(lines[0]),
        };
        if continues(lines[0]) {
            folded_from(Some(logical), lines.drop_first())
        } else {
            seq![logical] + folded_from(None, lines.drop_first())
        }
    }
}

/// The logical lines of a sequence of physical lines.
pub open spec fn folded(lines: Seq<Seq<u8>>) -> Seq<Seq<u8>> {
    folded_from(None, lines)
}

/// The lines as the link reads them: folded where it asks for that.
pub open spec fn logical_lines(lines: Seq<Seq<u8>>, fold: bool) -> Seq<Seq<u8>> {
    if fold {
        folded(lines)
    } else {
        lines
    }
}

/// The set that stands for a side: its logical lines that are not empty.
pub open spec fn side_lines(lines: Seq<Seq<u8>>, fold: bool) -> Set<Seq<u8>> {
    Set::new(|line: Seq<u8>| line.len() > 0 && logical_lines(lines, fold).contains(line))
}

/// The lines of either side that the filter keeps.
pub open spec fn merged_lines(
    remote: Set<Seq<u8>>,
    local: Set<Seq<u8>>,
    removal: Seq<Seq<u8>>,
    patterns: Seq<Seq<char>>,
) -> Set<Seq<u8>> {
    Set::new(
        |line: Seq<u8>|
            (remote.contains(line) || local.contains(line)) && kept(line, removal, patterns),
    )
}

/// A set of lines as a blob: the lines in byte order, joined by newlines, with
/// a newline at the end. The empty set gives the empty blob.
pub open spec fn serialized(lines: Set<Seq<u8>>) -> Seq<u8> {
    with_final_newline(joined(sorted_lines(lines)))
}

/// What a side is handed: nothing where it holds the merged set already, else
/// the merged set as a blob.
pub open spec fn update_for(side: Set<Seq<u8>>, merged: Set<Seq<u8>>) -> Option<Seq<u8>> {
    if side == merged {
        None
    } else {
        Some(serialized(merged))
    }
}

/// The outcome of a reconciliation: the update for the local side, then the
/// update for the remote side.
pub open spec fn reconciled(
    remote: Seq<Seq<u8>>,
    local: Seq<Seq<u8>>,
    removal: Seq<Seq<u8>>,
    patterns: Seq<Seq<char>>,
    fold: bool,
) -> (Option<Seq<u8>>, Option<Seq<u8>>) {
    let remote_side = side_lines(remote, fold);
    let local_side = side_lines(local, fold);
    let merged = merged_lines(remote_side, local_side, removal, patterns);
    (update_for(local_side, merged), update_for(remote_side, merged))
}

/// The views of a pair of updates.
pub open spec fn update_views(updates: (Option<Vec<u8>>, Option<Vec<u8>>)) -> (
    Option<Seq<u8>>,
    Option<Seq<u8>>,
) {
    (
        match updates.0 {
            Some(blob) => Some(blob@),
            None => None,
        },
        match updates.1 {
            Some(blob) => Some(blob@),
            None => None,
        },
    )
}

/// Ends the content with a newline, unless it is empty or ends with one.
pub fn last_char(content: Vec<u8>) -> (ended: Vec<u8>)
    ensures
        ended@ == with_final_newline(content@),
{
    let mut content = content;
    let n = content.len();
    if n > 0 && content[n - 1] != NEWLINE {
        content.push(NEWLINE);
    }
    content
}

/// Folds continued lines where `feature` is set, and hands the lines back as
/// they are where it is not.
pub fn apply_feature_rmb(content: Vec<Vec<u8>>, feature: bool) -> (logical: Vec<Vec<u8>>)
    ensures
        line_views(logical@) == logical_lines(line_views(content@), feature),
{
    if feature {
        return feature_remove_multilines_bash(content);
    }
    content
}

/// Folds each run of lines that a trailing backslash continues into one
/// line: the backslash gives way to a space, and the next line follows it.
pub fn feature_remove_multilines_bash(content: Vec<Vec<u8>>) -> (logical: Vec<Vec<u8>>)
    ensures
        line_views(logical@) == folded(line_views(content@)),
{
    let ghost all = line_views(content@);
    let mut logical: Vec<Vec<u8>> = Vec::new();
    let mut begun: Vec<u8> = Vec::new();
    let mut pending = false;
    let mut i: usize = 0;
    proof {
        assert(all.skip(0) =~= all);
        assert(line_views(logical@) + folded(all) =~= folded(all));
    }
    while i < content.len()
        invariant
            i <= content.len(),
            all == line_views(content@),
            !pending ==> begun@.len() == 0,
            line_views(logical@) + folded_from(
                if pending {
                    Some(begun@)
                } else {
                    None
                },
                all.skip(i as int),
            ) == folded(all),
        decreases content.len() - i,
    {
        let current = &content[i];
        let n = current.len();
        let ghost before = begun@;
        let ghost emitted = line_views(logical@);
        proof {
            assert(all.skip(i as int).drop_first() =~= all.skip(i + 1));
            assert(all.skip(i as int)[0] == current@);
            if !pending {
                assert(before + piece(current@) =~= piece(current@));
            }
        }
        if n > 0 && current[n - 1] == CONTINUATION {
            begun.extend_from_slice(slice_subrange(current.as_slice(), 0, n - 1));
            begun.push(SPACE);
            pending = true;
            proof {
                assert(begun@ =~= before + piece(current@));
            }
        } else {
            begun.extend_from_slice(current.as_slice());
            proof {
                assert(begun@ =~= before + piece(current@));
                assert(line_views(logical@.push(begun)) =~= emitted.push(begun@));
                assert(emitted.push(begun@) + folded_from(None, all.skip(i + 1)) =~= emitted + (
                seq![begun@] + folded_from(None, all.skip(i + 1))));
            }
            logical.push(begun);
            begun = Vec::new();
            pending = false;
        }
        i += 1;
    }
    if pending {
        proof {
            assert(line_views(logical@.push(begun)) =~= line_views(logical@) + seq![begun@]);
        }
        logical.push(begun);
    } else {
        proof {
            assert(line_views(logical@) + Seq::<Seq<u8>>::empty() =~= line_views(logical@));
        }
    }
    logical
}

/// The set that stands for a side.
fn side_of(lines: Vec<Vec<u8>>, fold: bool) -> (side: LineSet)
    ensures
        side@ == side_lines(line_views(lines@), fold),
{
    let logical = apply_feature_rmb(lines, fold);
    let rest = without_empty(logical);
    proof {
        lemma_filter_members(line_views(logical@), not_empty());
        assert(line_views(rest@).to_set() =~= side_lines(line_views(lines@), fold));
    }
    LineSet::from_lines(rest)
}

/// Reconciles the two sides under a filter that is compiled already, and
/// gives the update for the local side, then the update for the remote side.
pub fn append_filtered(
    remote_file: Vec<Vec<u8>>,
    local_file: Vec<Vec<u8>>,
    filter: &ContentFilter,
    fold: bool,
) -> (updates: (Option<Vec<u8>>, Option<Vec<u8>>))
    ensures
        update_views(updates) == reconciled(
            line_views(remote_file@),
            line_views(local_file@),
            filter.removal(),
            filter.patterns(),
            fold,
        ),
{
    let local_side = side_of(local_file, fold);
    let remote_side = side_of(remote_file, fold);
    let all = remote_side.union(&local_side).into_lines();
    let ghost seen = line_views(all@);
    let rest = filter.filter_lines(all);
    let ghost target = merged_lines(
        remote_side@,
        local_side@,
        filter.removal(),
        filter.patterns(),
    );
    proof {
        let keep = keeping(filter.removal(), filter.patterns());
        lemma_filter_increasing(seen, keep);
        lemma_filter_members(seen, keep);
        assert(line_views(rest@).to_set() =~= target);
    }
    let merged = LineSet::from_sorted(rest);
    let blob = last_char(join_lines(merged.as_lines()));
    let local_update = if local_side.same_as(&merged) {
        None
    } else {
        Some(copy_of(&blob))
    };
    let remote_update = if remote_side.same_as(&merged) {
        None
    } else {
        Some(blob)
    };
    (local_update, remote_update)
}

/// Reconciles the remote side with the local side of a link: gives the
/// update for the local side, then the update for the remote side.
///
/// Every exclusion pattern has to be a regular expression that compiles;
/// `reconcile` tests that first.
pub fn append(
    remote_file: Vec<Vec<u8>>,
    local_file: Vec<Vec<u8>>,
    remove_lines: Vec<String>,
    exclude_patterns: Vec<String>,
    features: Vec<Feature>,
) -> (updates: (Option<Vec<u8>>, Option<Vec<u8>>))
    requires
        all_compile(string_views(exclude_patterns@)),
    ensures
        update_views(updates) == reconciled(
            line_views(remote_file@),
            line_views(local_file@),
            encoded(string_views(remove_lines@)),
            string_views(exclude_patterns@),
            features@.contains(Feature::RemoveMultilinesBash),
        ),
{
    let fold = has_feature(&features, Feature::RemoveMultilinesBash);
    match ContentFilter::new(&remove_lines, &exclude_patterns) {
        Ok(filter) => append_filtered(remote_file, local_file, &filter, fold),
        Err(_) => unreached(),
    }
}

/// Reconciles the two sides of a link, or names the first exclusion pattern
/// that is no regular expression.
pub fn reconcile(
    remote_file: Vec<Vec<u8>>,
    local_file: Vec<Vec<u8>>,
    remove_lines: Vec<String>,
    exclude_patterns: Vec<String>,
    features: Vec<Feature>,
) -> (outcome: Result<(Option<Vec<u8>>, Option<Vec<u8>>), ConfigError>)
    ensures
        outcome is Ok <==> all_compile(string_views(exclude_patterns@)),
        match outcome {
            Ok(updates) => all_compile(string_views(exclude_patterns@)) && update_views(updates)
                == reconciled(
                line_views(remote_file@),
                line_views(local_file@),
                encoded(string_views(remove_lines@)),
                string_views(exclude_patterns@),
                features@.contains(Feature::RemoveMultilinesBash),
            ),
            Err(ConfigError::MalformedPattern(given)) => exists|i: int|
                #![trigger string_views(exclude_patterns@)[i]]
                first_malformed(string_views(exclude_patterns@), i) && given@ == string_views(
                    exclude_patterns@,
                )[i],
        },
{
    match compile_patterns(&exclude_patterns) {
        Ok(_) => Ok(append(remote_file, local_file, remove_lines, exclude_patterns, features)),
        Err(error) => Err(error),
    }
}

/// The branch of a link: the one it names, or the default branch.
pub open spec fn branch_of(link: GitLink) -> Seq<char> {
    match link.source_branch {
        Some(branch) => branch@,
        None => default_branch(),
    }
}

/// The branch of a link.
pub fn source_branch(file_appender: &GitLink) -> (branch: String)
    ensures
        branch@ == branch_of(*file_appender),
{
    match &file_appender.source_branch {
        Some(branch) => branch.clone(),
        None => default_branch_name(),
    }
}

/// The remote-tracking branch from which a link's fragment is read.
pub fn remote_branch(file_appender: &GitLink) -> (branch: String)
    ensures
        branch@ == remote() + "/"@ + branch_of(*file_appender),
{
    tracking_branch(source_branch(file_appender).as_str())
}

/// The lines of a fragment as it stands in the history. Without a
/// passphrase the fragment is plain, and its lines are those of the blob.
/// With one, an empty blob has no lines, and any other is a ciphertext whose
/// plaintext holds the lines.
pub open spec fn fragment_lines(content: Seq<u8>, passphrase: Option<Seq<char>>) -> Seq<Seq<u8>> {
    match passphrase {
        None => lines_of(content),
        Some(secret) => if content.len() == 0 {
            Seq::<Seq<u8>>::empty()
        } else {
            lines_of(age_plaintext(content, secret))
        },
    }
}

/// The view of a passphrase that may be missing.
pub open spec fn secret_view(passphrase: Option<&str>) -> Option<Seq<char>> {
    match passphrase {
        Some(secret) => Some(secret@),
        None => None,
    }
}

/// Reads the lines of a link's fragment from the blob found in the history,
/// under the passphrase of the link where it has one.
pub fn get_from_appender(content: Vec<u8>, passphrase: Option<&str>) -> (outcome: Result<
    Vec<Vec<u8>>,
    CryptError,
>)
    ensures
        match passphrase {
            Some(secret) if content@.len() > 0 => decrypts(content@, secret@, outcome),
            _ => outcome is Ok,
        },
        outcome matches Ok(lines) ==> line_views(lines@) == fragment_lines(
            content@,
            secret_view(passphrase),
        ),
{
    match passphrase {
        Some(secret) => {
            if content.len() == 0 {
                Ok(Vec::new())
            } else {
                decrypt_under(&content, secret)
            }
        },
        None => Ok(split_lines(&content)),
    }
}

} // verus!
