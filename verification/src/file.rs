//! What is made of the bytes of a file once they are read.

use vstd::prelude::*;
use crate::blob::{lines_of, split_lines};
use crate::line::{line_views, NEWLINE};

verus! {

/// The content without the newline at its end, if it has one.
pub open spec fn without_final_end_line(content: Seq<u8>) -> Seq<u8> {
    if content.len() > 0 && content.last() == NEWLINE {
        content.drop_last()
    } else {
        content
    }
}

/// Drops the newline at the end of a file's content, if there is one.
pub fn strip_final_end_line(content: Vec<u8>) -> (stripped: Vec<u8>)
    ensures
        stripped@ == without_final_end_line(content@),
{
    let mut content = content;
    let n = content.len();
    if n > 0 && content[n - 1] == NEWLINE {
        content.pop();
    }
    content
}

/// The lines of a working file: the segments of its content between newline
/// bytes, with nothing taken away but the newline bytes. What of them is
/// empty or no text is left to the filter.
pub fn contents_as_lines(content: &Vec<u8>) -> (lines: Vec<Vec<u8>>)
    ensures
        line_views(lines@) == lines_of(content@),
{
    split_lines(content)
}

} // verus!
