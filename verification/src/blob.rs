//! Blobs of bytes and the lines they hold: splitting at newlines and joining
//! lines back into a blob.

use vstd::prelude::*;
use crate::line::{line_views, NEWLINE};

verus! {

/// The lines of a blob: its segments between newline bytes. A blob with `n`
/// newline bytes has `n + 1` lines, so the empty blob has one empty line and a
/// blob that ends in a newline has an empty last line.
pub open spec fn lines_of(blob: Seq<u8>) -> Seq<Seq<u8>>
    decreases blob.len(),
{
    if blob.len() == 0 {
        seq![Seq::<u8>::empty()]
    } else {
        let before = lines_of(blob.drop_last());
        if blob.last() == NEWLINE {
            before.push(Seq::<u8>::empty())
        } else {
            before.drop_last().push(before.last().push(blob.last()))
        }
    }
}

/// The lines joined by single newline bytes, with none after the last line.
pub open spec fn joined(lines: Seq<Seq<u8>>) -> Seq<u8>
    decreases lines.len(),
{
    if lines.len() == 0 {
        Seq::<u8>::empty()
    } else if lines.len() == 1 {
        lines[0]
    } else {
        joined(lines.drop_last()) + seq![NEWLINE] + lines.last()
    }
}

/// The content with a newline added at its end, unless the content is empty or
/// ends in a newline already.
pub open spec fn with_final_newline(content: Seq<u8>) -> Seq<u8> {
    if content.len() > 0 && content.last() != NEWLINE {
        content.push(NEWLINE)
    } else {
        content
    }
}

/// The line holds no newline byte.
pub open spec fn newline_free(line: Seq<u8>) -> bool {
    forall|i: int| 0 <= i < line.len() ==> line[i] != NEWLINE
}

/// None of the lines holds a newline byte.
pub open spec fn all_newline_free(lines: Seq<Seq<u8>>) -> bool {
    forall|i: int| 0 <= i < lines.len() ==> newline_free(#[trigger] lines[i])
}

/// A blob has at least one line, and no line of it holds a newline byte.
pub proof fn lemma_lines_of_shape(blob: Seq<u8>)
    ensures
        lines_of(blob).len() >= 1,
        all_newline_free(lines_of(blob)),
    decreases blob.len(),
{
    if blob.len() > 0 {
        lemma_lines_of_shape(blob.drop_last());
    }
}

/// Bytes without a newline, added at the end of a blob, extend its last line.
pub proof fn lemma_lines_of_extended(blob: Seq<u8>, tail: Seq<u8>)
    requires
        newline_free(tail),
    ensures
        lines_of(blob).len() >= 1,
        lines_of(blob + tail) == lines_of(blob).drop_last().push(lines_of(blob).last() + tail),
    decreases tail.len(),
{
    lemma_lines_of_shape(blob);
    let lines = lines_of(blob);
    if tail.len() == 0 {
        assert(blob + tail =~= blob);
        assert(lines.last() + tail =~= lines.last());
        assert(lines.drop_last().push(lines.last()) =~= lines);
    } else {
        let shorter = tail.drop_last();
        lemma_lines_of_extended(blob, shorter);
        assert((blob + tail).drop_last() =~= blob + shorter);
        assert((lines.last() + shorter).push(tail.last()) =~= lines.last() + tail);
        assert(lines.drop_last().push(lines.last() + shorter).drop_last() =~= lines.drop_last());
    }
}

/// Joining lines that hold no newline byte and splitting the result gives the
/// lines back.
pub proof fn lemma_lines_of_joined(lines: Seq<Seq<u8>>)
    requires
        lines.len() >= 1,
        all_newline_free(lines),
    ensures
        lines_of(joined(lines)) == lines,
    decreases lines.len(),
{
    if lines.len() == 1 {
        lemma_lines_of_extended(Seq::<u8>::empty(), lines[0]);
        assert(Seq::<u8>::empty() + lines[0] =~= lines[0]);
        assert(lines_of(Seq::<u8>::empty()) =~= seq![Seq::<u8>::empty()]);
        assert(seq![Seq::<u8>::empty()].drop_last().push(Seq::<u8>::empty() + lines[0]) =~= lines);
    } else {
        let front = lines.drop_last();
        lemma_lines_of_joined(front);
        let head = joined(front) + seq![NEWLINE];
        assert(head.drop_last() =~= joined(front));
        assert(lines_of(head) == front.push(Seq::<u8>::empty()));
        lemma_lines_of_extended(head, lines.last());
        assert(front.push(Seq::<u8>::empty()).drop_last().push(
            Seq::<u8>::empty() + lines.last(),
        ) =~= lines);
    }
}

/// Splits a blob at its newline bytes.
pub fn split_lines(blob: &Vec<u8>) -> (lines: Vec<Vec<u8>>)
    ensures
        line_views(lines@) == lines_of(blob@),
{
    let mut lines: Vec<Vec<u8>> = Vec::new();
    let mut current: Vec<u8> = Vec::new();
    let mut i: usize = 0;
    proof {
        assert(blob@.take(0) =~= Seq::<u8>::empty());
        assert(line_views(lines@).push(current@) =~= lines_of(blob@.take(0)));
    }
    while i < blob.len()
        invariant
            i <= blob.len(),
            line_views(lines@).push(current@) == lines_of(blob@.take(i as int)),
        decreases blob.len() - i,
    {
        let byte = blob[i];
        let ghost before = line_views(lines@).push(current@);
        proof {
            assert(blob@.take(i + 1).drop_last() =~= blob@.take(i as int));
            assert(before.drop_last() =~= line_views(lines@));
        }
        if byte == NEWLINE {
            lines.push(current);
            current = Vec::new();
            proof {
                assert(line_views(lines@) =~= before);
            }
        } else {
            current.push(byte);
        }
        i += 1;
    }
    proof {
        assert(blob@.take(i as int) =~= blob@);
        assert(line_views(lines@.push(current)) =~= line_views(lines@).push(current@));
    }
    lines.push(current);
    lines
}

/// Joins lines with single newline bytes.
pub fn join_lines(lines: &Vec<Vec<u8>>) -> (blob: Vec<u8>)
    ensures
        blob@ == joined(line_views(lines@)),
{
    let mut blob: Vec<u8> = Vec::new();
    let mut k: usize = 0;
    proof {
        assert(line_views(lines@).take(0) =~= Seq::<Seq<u8>>::empty());
    }
    while k < lines.len()
        invariant
            k <= lines.len(),
            blob@ == joined(line_views(lines@).take(k as int)),
        decreases lines.len() - k,
    {
        let ghost upto = line_views(lines@).take(k + 1);
        proof {
            assert(upto.drop_last() =~= line_views(lines@).take(k as int));
            assert(upto.last() == lines@[k as int]@);
        }
        if k > 0 {
            blob.push(NEWLINE);
        }
        let ghost base = blob@;
        blob.extend_from_slice(lines[k].as_slice());
        proof {
            assert(blob@ =~= base + lines@[k as int]@);
        }
        k += 1;
    }
    proof {
        assert(line_views(lines@).take(k as int) =~= line_views(lines@));
    }
    blob
}

} // verus!
