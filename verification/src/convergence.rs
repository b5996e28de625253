//! Why reconciliation converges: what holds of every outcome, whatever the
//! two sides and the rules of the link are.
//!
//! A line, as a side holds it, has no newline byte in it. Where a statement
//! below needs that, it asks for it.

use vstd::prelude::*;
use crate::appender::{
    continues, folded, folded_from, fragment_lines, logical_lines, merged_lines, piece,
    reconciled, serialized, side_lines,
};
use crate::age::age_plaintext;
use crate::blob::{
    all_newline_free, joined, lemma_lines_of_joined, lemma_lines_of_shape, lines_of,
    newline_free,
};
use crate::config::GitLink;
use crate::filter::kept;
use crate::line::{lemma_line_lt_irreflexive, NEWLINE, SPACE};
use crate::line_set::{lemma_push_contains, lemma_sorted_lines_lists, lists, sorted_lines};
use crate::link::{
    carries_out, folds, lemma_stored_fragment_reads_back, patterns_of, removal_of, updates_of,
    FileOutcome,
};
use crate::text::encoded;

verus! {

/// A line as an update writes it: not empty and without a newline byte.
pub open spec fn plain_line(line: Seq<u8>) -> bool {
    line.len() > 0 && newline_free(line)
}

/// The side as it stands after an update: the lines of the blob it was
/// handed, or, where it was handed nothing, the lines it had.
pub open spec fn fed_back(side: Seq<Seq<u8>>, update: Option<Seq<u8>>) -> Seq<Seq<u8>> {
    match update {
        Some(blob) => lines_of(blob),
        None => side,
    }
}

/// The lines that a blob holds before each of its newline bytes.
pub open spec fn ended_lines(blob: Seq<u8>) -> Seq<Seq<u8>> {
    lines_of(blob).drop_last()
}

/// The blob is empty, or ends in a newline byte.
pub open spec fn ends_with_newline(blob: Seq<u8>) -> bool {
    blob.len() > 0 ==> blob.last() == NEWLINE
}

/// The blob is empty, or ends in a newline byte that no other newline byte
/// precedes.
pub open spec fn ends_with_one_newline(blob: Seq<u8>) -> bool {
    blob.len() > 0 ==> blob.len() >= 2 && blob[blob.len() - 1] == NEWLINE && blob[blob.len() - 2]
        != NEWLINE
}

/// Lines of which none is continued fold into themselves.
pub proof fn lemma_folded_without_continuation(lines: Seq<Seq<u8>>)
    requires
        forall|i: int| 0 <= i < lines.len() ==> !continues(#[trigger] lines[i]),
    ensures
        folded(lines) == lines,
    decreases lines.len(),
{
    if lines.len() > 0 {
        let rest = lines.drop_first();
        assert forall|i: int| 0 <= i < rest.len() implies !continues(#[trigger] rest[i]) by {
            assert(rest[i] == lines[i + 1]);
        }
        lemma_folded_without_continuation(rest);
        assert(seq![lines[0]] + rest =~= lines);
    } else {
        assert(folded(lines) =~= lines);
    }
}

/// No logical line holds a newline byte where no physical line does, and no
/// logical line is continued.
pub proof fn lemma_folded_shape(begun: Option<Seq<u8>>, lines: Seq<Seq<u8>>)
    requires
        all_newline_free(lines),
        begun matches Some(line) ==> newline_free(line) && line.len() > 0 && line.last() == SPACE,
    ensures
        all_newline_free(folded_from(begun, lines)),
        forall|k: int|
            0 <= k < folded_from(begun, lines).len() ==> !continues(
                #[trigger] folded_from(begun, lines)[k],
            ),
    decreases lines.len(),
{
    if lines.len() > 0 {
        let first = lines[0];
        let rest = lines.drop_first();
        assert(newline_free(first));
        assert forall|i: int| 0 <= i < rest.len() implies newline_free(#[trigger] rest[i]) by {
            assert(rest[i] == lines[i + 1]);
        }
        let logical = match begun {
            Some(line) => line + piece(first),
            None => piece(first),
        };
        assert(newline_free(logical));
        if continues(first) {
            lemma_folded_shape(Some(logical), rest);
        } else {
            lemma_folded_shape(None, rest);
            let tail = folded_from(None, rest);
            let all = folded_from(begun, lines);
            assert(all =~= seq![logical] + tail);
            assert forall|k: int| 0 <= k < all.len() implies newline_free(#[trigger] all[k])
                && !continues(all[k]) by {
                if k > 0 {
                    assert(all[k] == tail[k - 1]);
                }
            }
        }
    }
}

/// What a side's set holds: lines that are not empty, that hold no newline
/// byte where the side's lines hold none, and that are not continued where
/// the link folds. The set is finite.
pub proof fn lemma_side_lines_shape(lines: Seq<Seq<u8>>, fold: bool)
    requires
        all_newline_free(lines),
    ensures
        side_lines(lines, fold).finite(),
        forall|line: Seq<u8>| #[trigger]
            side_lines(lines, fold).contains(line) ==> plain_line(line) && (fold ==> !continues(
                line,
            )),
{
    lemma_side_lines_finite(lines, fold);
    let logical = logical_lines(lines, fold);
    if fold {
        lemma_folded_shape(None, lines);
    }
    assert forall|line: Seq<u8>| #[trigger]
        side_lines(lines, fold).contains(line) implies plain_line(line) && (fold ==> !continues(
        line,
    )) by {
        let k = choose|k: int| 0 <= k < logical.len() && logical[k] == line;
        assert(newline_free(logical[k]));
    }
}

/// A side's set is finite.
pub proof fn lemma_side_lines_finite(lines: Seq<Seq<u8>>, fold: bool)
    ensures
        side_lines(lines, fold).finite(),
{
    let logical = logical_lines(lines, fold);
    vstd::seq_lib::seq_to_set_is_finite(logical);
    vstd::set_lib::lemma_len_subset(side_lines(lines, fold), logical.to_set());
}

/// The merged set holds lines of the two sides only, and is finite where
/// they are.
pub proof fn lemma_merged_lines_finite(
    remote: Set<Seq<u8>>,
    local: Set<Seq<u8>>,
    removal: Seq<Seq<u8>>,
    patterns: Seq<Seq<char>>,
)
    requires
        remote.finite(),
        local.finite(),
    ensures
        merged_lines(remote, local, removal, patterns).finite(),
{
    vstd::set::axiom_set_union_finite(remote, local);
    vstd::set_lib::lemma_len_subset(
        merged_lines(remote, local, removal, patterns),
        remote.union(local),
    );
}

/// The blob of a set of plain lines: empty for the empty set; for any other,
/// the lines of the set in byte order, each followed by one newline byte.
pub proof fn lemma_serialized_lines(set: Set<Seq<u8>>)
    requires
        set.finite(),
        forall|line: Seq<u8>| set.contains(line) ==> plain_line(line),
    ensures
        lists(sorted_lines(set), set),
        lines_of(serialized(set)) == sorted_lines(set).push(Seq::<u8>::empty()),
        set.len() == 0 ==> serialized(set).len() == 0,
        set.len() > 0 ==> serialized(set).len() > 0,
        ends_with_one_newline(serialized(set)),
{
    lemma_sorted_lines_lists(set);
    let lines = sorted_lines(set);
    if lines.len() == 0 {
        assert(forall|line: Seq<u8>| !set.contains(line));
        assert(set =~= Set::<Seq<u8>>::empty());
        assert(lines_of(serialized(set)) =~= lines.push(Seq::<u8>::empty()));
    } else {
        assert(set.contains(lines[0])) by {
            assert(lines.contains(lines[0]));
        }
        assert(set.len() > 0) by {
            if set.len() == 0 {
                assert(set =~= Set::<Seq<u8>>::empty());
            }
        }
        assert forall|i: int| 0 <= i < lines.len() implies plain_line(#[trigger] lines[i]) by {
            assert(lines.contains(lines[i]));
        }
        lemma_lines_of_joined(lines);
        let body = joined(lines);
        let last = lines.last();
        assert(body.len() >= last.len() && body.subrange(body.len() - last.len(), body.len() as int)
            == last) by {
            if lines.len() == 1 {
                assert(body.subrange(0, body.len() as int) =~= last);
            } else {
                let head = joined(lines.drop_last()) + seq![NEWLINE];
                assert(body == head + last);
                assert((head + last).subrange(head.len() as int, body.len() as int) =~= last);
            }
        }
        assert(body.last() == last.last()) by {
            assert(body.subrange(body.len() - last.len(), body.len() as int)[last.len() - 1]
                == body[body.len() - 1]);
        }
        assert(serialized(set) == body.push(NEWLINE));
        assert(body.push(NEWLINE).drop_last() =~= body);
    }
}

/// A side that was handed the blob of a set of lines stands for that set,
/// where the lines are plain and, if the link folds, none is continued.
pub proof fn lemma_side_of_serialized(set: Set<Seq<u8>>, fold: bool)
    requires
        set.finite(),
        forall|line: Seq<u8>| set.contains(line) ==> plain_line(line),
        fold ==> forall|line: Seq<u8>| set.contains(line) ==> !continues(line),
    ensures
        side_lines(lines_of(serialized(set)), fold) == set,
{
    lemma_serialized_lines(set);
    let lines = sorted_lines(set);
    let read = lines.push(Seq::<u8>::empty());
    lemma_push_contains(lines, Seq::<u8>::empty());
    if fold {
        assert forall|i: int| 0 <= i < read.len() implies !continues(#[trigger] read[i]) by {
            if i < lines.len() {
                assert(lines.contains(lines[i]));
            }
        }
        lemma_folded_without_continuation(read);
    }
    assert(logical_lines(read, fold) == read);
    assert forall|line: Seq<u8>| side_lines(read, fold).contains(line) <==> set.contains(
        line,
    ) by {
        if set.contains(line) {
            assert(plain_line(line));
            assert(lines.contains(line));
            assert(read.contains(line));
            assert(logical_lines(read, fold).contains(line));
        }
        if side_lines(read, fold).contains(line) {
            assert(line.len() > 0);
            assert(read.contains(line));
            assert(lines.contains(line));
        }
    }
    assert(side_lines(read, fold) =~= set);
}

/// After a reconciliation both sides stand for the merged set: the side that
/// was handed the blob reads the merged set from it, and the side that was
/// handed nothing held the merged set before.
pub proof fn lemma_sides_converge(
    remote: Seq<Seq<u8>>,
    local: Seq<Seq<u8>>,
    removal: Seq<Seq<u8>>,
    patterns: Seq<Seq<char>>,
    fold: bool,
)
    requires
        all_newline_free(remote),
        all_newline_free(local),
    ensures
        ({
            let updates = reconciled(remote, local, removal, patterns, fold);
            let merged = merged_lines(
                side_lines(remote, fold),
                side_lines(local, fold),
                removal,
                patterns,
            );
            &&& side_lines(fed_back(remote, updates.1), fold) == merged
            &&& side_lines(fed_back(local, updates.0), fold) == merged
        }),
{
    let remote_side = side_lines(remote, fold);
    let local_side = side_lines(local, fold);
    lemma_side_lines_shape(remote, fold);
    lemma_side_lines_shape(local, fold);
    lemma_merged_lines_finite(remote_side, local_side, removal, patterns);
    lemma_side_of_serialized(merged_lines(remote_side, local_side, removal, patterns), fold);
}

/// Reconciling again changes nothing. Where each side is fed back what it was
/// handed, its lines taken from the blob, and a side that was handed nothing
/// stays as it was, a second reconciliation under the same rules hands
/// nothing to either side.
pub proof fn lemma_reconcile_idempotent(
    remote: Seq<Seq<u8>>,
    local: Seq<Seq<u8>>,
    removal: Seq<Seq<u8>>,
    patterns: Seq<Seq<char>>,
    fold: bool,
)
    requires
        all_newline_free(remote),
        all_newline_free(local),
    ensures
        ({
            let first = reconciled(remote, local, removal, patterns, fold);
            reconciled(
                fed_back(remote, first.1),
                fed_back(local, first.0),
                removal,
                patterns,
                fold,
            ) == (None::<Seq<u8>>, None::<Seq<u8>>)
        }),
{
    let merged = merged_lines(
        side_lines(remote, fold),
        side_lines(local, fold),
        removal,
        patterns,
    );
    lemma_sides_converge(remote, local, removal, patterns, fold);
    assert(merged_lines(merged, merged, removal, patterns) =~= merged);
}

/// A link that was run has nothing left to do. Where the working file and the
/// fragment's file hold what the run wrote, and what it did not write stays
/// as it was, the next run of the link owes nothing to either side.
pub proof fn lemma_link_converges(
    link: GitLink,
    local: Seq<Seq<u8>>,
    fragment: Seq<u8>,
    passphrase: Option<Seq<char>>,
    done: FileOutcome,
    repo_file_path: Seq<char>,
    git_folder: Seq<char>,
)
    requires
        all_newline_free(local),
        carries_out(
            done,
            updates_of(link, local, fragment, passphrase),
            passphrase,
            repo_file_path,
            git_folder,
        ),
    ensures
        updates_of(
            link,
            match done.local_content {
                Some(content) => lines_of(content@),
                None => local,
            },
            match done.remote_content {
                Some(bytes) => bytes@,
                None => fragment,
            },
            passphrase,
        ) == (None::<Seq<u8>>, None::<Seq<u8>>),
{
    let remote = fragment_lines(fragment, passphrase);
    let updates = updates_of(link, local, fragment, passphrase);
    assert(all_newline_free(remote)) by {
        lemma_lines_of_shape(fragment);
        if let Some(secret) = passphrase {
            lemma_lines_of_shape(age_plaintext(fragment, secret));
        }
    }
    lemma_reconcile_idempotent(
        remote,
        local,
        encoded(removal_of(link)),
        patterns_of(link),
        folds(link),
    );
    if let Some(blob) = updates.1 {
        lemma_stored_fragment_reads_back(done.remote_content, blob, passphrase);
    }
}

/// The sides can be exchanged: reconciling `b` with `a` hands each side what
/// reconciling `a` with `b` hands it.
pub proof fn lemma_reconcile_commutative(
    a: Seq<Seq<u8>>,
    b: Seq<Seq<u8>>,
    removal: Seq<Seq<u8>>,
    patterns: Seq<Seq<char>>,
    fold: bool,
)
    ensures
        ({
            let one_way = reconciled(a, b, removal, patterns, fold);
            let other_way = reconciled(b, a, removal, patterns, fold);
            other_way == (one_way.1, one_way.0)
        }),
{
    let side_a = side_lines(a, fold);
    let side_b = side_lines(b, fold);
    assert(merged_lines(side_a, side_b, removal, patterns) =~= merged_lines(
        side_b,
        side_a,
        removal,
        patterns,
    ));
}

/// An update is the empty blob or ends in a newline byte. Where the lines of
/// the two sides hold no newline byte, it ends in exactly one, and it is
/// empty only where the filter keeps no line of either side.
pub proof fn lemma_update_ends_with_one_newline(
    remote: Seq<Seq<u8>>,
    local: Seq<Seq<u8>>,
    removal: Seq<Seq<u8>>,
    patterns: Seq<Seq<char>>,
    fold: bool,
)
    ensures
        ({
            let updates = reconciled(remote, local, removal, patterns, fold);
            let merged = merged_lines(
                side_lines(remote, fold),
                side_lines(local, fold),
                removal,
                patterns,
            );
            let plain = all_newline_free(remote) && all_newline_free(local);
            &&& updates.0 matches Some(blob) ==> ends_with_newline(blob) && (plain
                ==> ends_with_one_newline(blob) && (blob.len() == 0 <==> merged.len() == 0))
            &&& updates.1 matches Some(blob) ==> ends_with_newline(blob) && (plain
                ==> ends_with_one_newline(blob) && (blob.len() == 0 <==> merged.len() == 0))
        }),
{
    if all_newline_free(remote) && all_newline_free(local) {
        let remote_side = side_lines(remote, fold);
        let local_side = side_lines(local, fold);
        lemma_side_lines_shape(remote, fold);
        lemma_side_lines_shape(local, fold);
        lemma_merged_lines_finite(remote_side, local_side, removal, patterns);
        lemma_serialized_lines(merged_lines(remote_side, local_side, removal, patterns));
    }
}

/// No update holds a line twice: the lines that an update ends by a newline
/// byte are those of the merged set in byte order, each once.
pub proof fn lemma_update_without_duplicates(
    remote: Seq<Seq<u8>>,
    local: Seq<Seq<u8>>,
    removal: Seq<Seq<u8>>,
    patterns: Seq<Seq<char>>,
    fold: bool,
)
    requires
        all_newline_free(remote),
        all_newline_free(local),
    ensures
        ({
            let updates = reconciled(remote, local, removal, patterns, fold);
            let merged = merged_lines(
                side_lines(remote, fold),
                side_lines(local, fold),
                removal,
                patterns,
            );
            &&& updates.0 matches Some(blob) ==> ended_lines(blob).no_duplicates() && ended_lines(
                blob,
            ) == sorted_lines(merged)
            &&& updates.1 matches Some(blob) ==> ended_lines(blob).no_duplicates() && ended_lines(
                blob,
            ) == sorted_lines(merged)
        }),
{
    let remote_side = side_lines(remote, fold);
    let local_side = side_lines(local, fold);
    let merged = merged_lines(remote_side, local_side, removal, patterns);
    lemma_side_lines_shape(remote, fold);
    lemma_side_lines_shape(local, fold);
    lemma_merged_lines_finite(remote_side, local_side, removal, patterns);
    lemma_serialized_lines(merged);
    let lines = sorted_lines(merged);
    assert(lines.push(Seq::<u8>::empty()).drop_last() =~= lines);
    assert forall|i: int, j: int| 0 <= i < lines.len() && 0 <= j < lines.len() && i != j implies lines[i]
        != lines[j] by {
        lemma_line_lt_irreflexive(lines[i]);
    }
}

/// Reconciliation takes no line away but by a rule, and adds none: the merged
/// set holds exactly the lines of the two sides that the filter keeps, so a
/// side whose lines the filter all keeps is part of it.
pub proof fn lemma_merged_lines_hold_kept_sides(
    remote: Seq<Seq<u8>>,
    local: Seq<Seq<u8>>,
    removal: Seq<Seq<u8>>,
    patterns: Seq<Seq<char>>,
    fold: bool,
)
    ensures
        ({
            let remote_side = side_lines(remote, fold);
            let local_side = side_lines(local, fold);
            let merged = merged_lines(remote_side, local_side, removal, patterns);
            &&& merged.subset_of(remote_side.union(local_side))
            &&& forall|line: Seq<u8>|
                (remote_side.contains(line) || local_side.contains(line)) && !merged.contains(line)
                    ==> !kept(line, removal, patterns)
        }),
{
}

} // verus!
