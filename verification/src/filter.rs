//! The content filter: which lines a link keeps.

use vstd::prelude::*;
use vstd::utf8::{decode_utf8, valid_utf8};
use crate::line::{line_views, same_line};
use crate::line_set::{lemma_filter_twice, take_line};
use crate::pattern::{
    all_compile, any_matches, compile_patterns, first_malformed, pattern_matches, pattern_views,
    ConfigError, ExclusionPattern,
};
use crate::text::{as_text, encode_all, encoded, string_views};

verus! {

/// Every byte of the line is the null byte.
pub open spec fn only_null_bytes(line: Seq<u8>) -> bool {
    forall|i: int| 0 <= i < line.len() ==> line[i] == 0
}

/// The filter's verdict on one line. A line is kept when it is not empty, is
/// not one of the lines to remove, does not consist of null bytes, is valid
/// UTF-8, and, read as text, is matched by none of the exclusion patterns.
pub open spec fn kept(line: Seq<u8>, removal: Seq<Seq<u8>>, patterns: Seq<Seq<char>>) -> bool {
    &&& line.len() > 0
    &&& !removal.contains(line)
    &&& !only_null_bytes(line)
    &&& valid_utf8(line)
    &&& !any_matches(patterns, decode_utf8(line))
}

/// The verdict as a predicate on lines.
pub open spec fn keeping(removal: Seq<Seq<u8>>, patterns: Seq<Seq<char>>) -> spec_fn(
    Seq<u8>,
) -> bool {
    |line: Seq<u8>| kept(line, removal, patterns)
}

/// The filter keeps what it kept: filtering lines that were filtered by the
/// same rules changes nothing.
pub proof fn lemma_filter_lines_twice(
    lines: Seq<Seq<u8>>,
    removal: Seq<Seq<u8>>,
    patterns: Seq<Seq<char>>,
)
    ensures
        lines.filter(keeping(removal, patterns)).filter(keeping(removal, patterns))
            == lines.filter(keeping(removal, patterns)),
{
    lemma_filter_twice(lines, keeping(removal, patterns));
}

/// The predicate that holds of the lines that are not empty.
pub open spec fn not_empty() -> spec_fn(Seq<u8>) -> bool {
    |line: Seq<u8>| line.len() > 0
}

/// The lines of a vector that are not empty, in their order.
pub fn without_empty(lines: Vec<Vec<u8>>) -> (rest: Vec<Vec<u8>>)
    ensures
        line_views(rest@) == line_views(lines@).filter(not_empty()),
{
    let ghost all = line_views(lines@);
    let mut lines = lines;
    let mut rest: Vec<Vec<u8>> = Vec::new();
    let mut i: usize = 0;
    proof {
        reveal(Seq::filter);
        assert(all.take(0) =~= Seq::<Seq<u8>>::empty());
    }
    while i < lines.len()
        invariant
            i <= lines.len(),
            lines.len() == all.len(),
            forall|k: int| i <= k < lines.len() ==> (#[trigger] lines@[k])@ == all[k],
            line_views(rest@) == all.take(i as int).filter(not_empty()),
        decreases lines.len() - i,
    {
        proof {
            reveal(Seq::filter);
            assert(all.take(i + 1).drop_last() =~= all.take(i as int));
        }
        if lines[i].len() > 0 {
            let line = take_line(&mut lines, i);
            proof {
                assert(line_views(rest@.push(line)) =~= line_views(rest@).push(line@));
            }
            rest.push(line);
        }
        i += 1;
    }
    proof {
        assert(all.take(i as int) =~= all);
    }
    rest
}

/// The rules by which a link leaves lines out.
pub struct ContentFilter {
    removal: Vec<Vec<u8>>,
    patterns: Vec<ExclusionPattern>,
}

impl ContentFilter {
    /// The lines to remove, as bytes.
    pub closed spec fn removal(&self) -> Seq<Seq<u8>> {
        line_views(self.removal@)
    }

    /// The exclusion patterns, as they were written.
    pub closed spec fn patterns(&self) -> Seq<Seq<char>> {
        pattern_views(self.patterns@)
    }

    /// The filter of a link that removes the given lines and excludes by the
    /// given patterns. The error names the first pattern that is malformed.
    pub fn new(remove_lines: &Vec<String>, exclude_patterns: &Vec<String>) -> (outcome: Result<
        Self,
        ConfigError,
    >)
        ensures
            outcome is Ok <==> all_compile(string_views(exclude_patterns@)),
            match outcome {
                Ok(filter) => all_compile(string_views(exclude_patterns@)) && filter.removal()
                    == encoded(string_views(remove_lines@)) && filter.patterns() == string_views(
                    exclude_patterns@,
                ),
                Err(ConfigError::MalformedPattern(given)) => exists|i: int|
                    #![trigger string_views(exclude_patterns@)[i]]
                    first_malformed(string_views(exclude_patterns@), i) && given@ == string_views(
                        exclude_patterns@,
                    )[i],
            },
    {
        match compile_patterns(exclude_patterns) {
            Ok(patterns) => Ok(ContentFilter { removal: encode_all(remove_lines), patterns }),
            Err(error) => Err(error),
        }
    }

    /// Whether the line is one of the lines to remove.
    fn removes(&self, line: &Vec<u8>) -> (found: bool)
        ensures
            found == self.removal().contains(line@),
    {
        let mut i: usize = 0;
        while i < self.removal.len()
            invariant
                i <= self.removal.len(),
                forall|k: int| 0 <= k < i ==> line_views(self.removal@)[k] != line@,
            decreases self.removal.len() - i,
        {
            if same_line(&self.removal[i], line) {
                assert(line_views(self.removal@)[i as int] == line@);
                return true;
            }
            i += 1;
        }
        false
    }

    /// Whether one of the exclusion patterns matches somewhere in the text.
    fn excludes(&self, text: &str) -> (found: bool)
        ensures
            found == any_matches(self.patterns(), text@),
    {
        let mut i: usize = 0;
        while i < self.patterns.len()
            invariant
                i <= self.patterns.len(),
                forall|k: int|
                    0 <= k < i ==> !pattern_matches(
                        #[trigger] pattern_views(self.patterns@)[k],
                        text@,
                    ),
            decreases self.patterns.len() - i,
        {
            if self.patterns[i].excludes(text) {
                assert(pattern_matches(pattern_views(self.patterns@)[i as int], text@));
                return true;
            }
            i += 1;
        }
        false
    }

    /// Whether the filter keeps the line.
    pub fn keeps(&self, line: &Vec<u8>) -> (keep: bool)
        ensures
            keep == kept(line@, self.removal(), self.patterns()),
    {
        if line.len() == 0 || self.removes(line) || holds_only_null_bytes(line) {
            return false;
        }
        match as_text(line) {
            Some(text) => !self.excludes(text),
            None => false,
        }
    }

    /// The lines that the filter keeps, in their order.
    pub fn filter_lines(&self, lines: Vec<Vec<u8>>) -> (rest: Vec<Vec<u8>>)
        ensures
            line_views(rest@) == line_views(lines@).filter(
                keeping(self.removal(), self.patterns()),
            ),
    {
        let ghost all = line_views(lines@);
        let ghost keep = keeping(self.removal(), self.patterns());
        let mut lines = lines;
        let mut rest: Vec<Vec<u8>> = Vec::new();
        let mut i: usize = 0;
        proof {
            reveal(Seq::filter);
            assert(all.take(0) =~= Seq::<Seq<u8>>::empty());
        }
        while i < lines.len()
            invariant
                i <= lines.len(),
                lines.len() == all.len(),
                forall|k: int| i <= k < lines.len() ==> (#[trigger] lines@[k])@ == all[k],
                keep == keeping(self.removal(), self.patterns()),
                line_views(rest@) == all.take(i as int).filter(keep),
            decreases lines.len() - i,
        {
            proof {
                reveal(Seq::filter);
                assert(all.take(i + 1).drop_last() =~= all.take(i as int));
            }
            if self.keeps(&lines[i]) {
                let line = take_line(&mut lines, i);
                proof {
                    assert(line_views(rest@.push(line)) =~= line_views(rest@).push(line@));
                }
                rest.push(line);
            }
            i += 1;
        }
        proof {
            assert(all.take(i as int) =~= all);
        }
        rest
    }
}

/// Whether every byte of the line is the null byte.
fn holds_only_null_bytes(line: &Vec<u8>) -> (all: bool)
    ensures
        all == only_null_bytes(line@),
{
    let mut i: usize = 0;
    while i < line.len()
        invariant
            i <= line.len(),
            forall|k: int| 0 <= k < i ==> line[k] == 0,
        decreases line.len() - i,
    {
        if line[i] != 0 {
            return false;
        }
        i += 1;
    }
    true
}

} // verus!
