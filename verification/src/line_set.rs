//! Sets of lines, held as the one strictly increasing sequence that lists
//! them.

use vstd::prelude::*;
use crate::line::{
    lemma_line_lt_irreflexive, lemma_line_lt_transitive, lemma_line_lt_trichotomy, line_lt,
    line_views, order_of, same_line, LineOrder,
};

verus! {

/// Each line comes strictly before every later one.
pub open spec fn strictly_increasing(lines: Seq<Seq<u8>>) -> bool {
    forall|i: int, j: int| 0 <= i < j < lines.len() ==> line_lt(lines[i], lines[j])
}

/// `lines` is the listing of `set`: strictly increasing, and holding exactly
/// the members of `set`.
pub open spec fn lists(lines: Seq<Seq<u8>>, set: Set<Seq<u8>>) -> bool {
    &&& strictly_increasing(lines)
    &&& forall|line: Seq<u8>|
        #![trigger lines.contains(line)]
        #![trigger set.contains(line)]
        lines.contains(line) <==> set.contains(line)
}

/// The members of a finite set of lines in byte-lexicographic order.
pub open spec fn sorted_lines(set: Set<Seq<u8>>) -> Seq<Seq<u8>> {
    choose|lines: Seq<Seq<u8>>| lists(lines, set)
}

/// The place of `line` in a strictly increasing sequence.
pub open spec fn inserted(lines: Seq<Seq<u8>>, line: Seq<u8>) -> Seq<Seq<u8>>
    decreases lines.len(),
{
    if lines.len() == 0 {
        seq![line]
    } else if line_lt(lines.last(), line) {
        lines.push(line)
    } else if lines.last() == line {
        lines
    } else {
        inserted(lines.drop_last(), line).push(lines.last())
    }
}

/// What a sequence holds after one more element was pushed.
pub proof fn lemma_push_contains<A>(s: Seq<A>, last: A)
    ensures
        forall|x: A|
            #![trigger s.push(last).contains(x)]
            #![trigger s.contains(x)]
            s.push(last).contains(x) <==> s.contains(x) || x == last,
{
    assert forall|x: A| s.push(last).contains(x) <==> s.contains(x) || x == last by {
        if s.push(last).contains(x) {
            let k = choose|k: int| 0 <= k < s.push(last).len() && s.push(last)[k] == x;
            if k < s.len() {
                assert(s[k] == x);
            }
        }
        if s.contains(x) {
            let k = choose|k: int| 0 <= k < s.len() && s[k] == x;
            assert(s.push(last)[k] == x);
        }
        if x == last {
            assert(s.push(last)[s.len() as int] == x);
        }
    }
}

/// What a range of a sequence holds, by its two halves.
pub proof fn lemma_subrange_contains<A>(s: Seq<A>, from: int, mid: int, to: int)
    requires
        0 <= from <= mid <= to <= s.len(),
    ensures
        forall|x: A|
            #![trigger s.subrange(from, to).contains(x)]
            #![trigger s.subrange(from, mid).contains(x)]
            #![trigger s.subrange(mid, to).contains(x)]
            s.subrange(from, to).contains(x) <==> s.subrange(from, mid).contains(x)
                || s.subrange(mid, to).contains(x),
{
    let whole = s.subrange(from, to);
    let left = s.subrange(from, mid);
    let right = s.subrange(mid, to);
    assert forall|x: A| whole.contains(x) <==> left.contains(x) || right.contains(x) by {
        if whole.contains(x) {
            let k = choose|k: int| 0 <= k < whole.len() && whole[k] == x;
            if k < mid - from {
                assert(left[k] == x);
            } else {
                assert(right[k - (mid - from)] == x);
            }
        }
        if left.contains(x) {
            let k = choose|k: int| 0 <= k < left.len() && left[k] == x;
            assert(whole[k] == x);
        }
        if right.contains(x) {
            let k = choose|k: int| 0 <= k < right.len() && right[k] == x;
            assert(whole[k + (mid - from)] == x);
        }
    }
}

/// Putting a line in its place keeps the sequence strictly increasing and adds
/// that line to what it holds, nothing else.
pub proof fn lemma_inserted(lines: Seq<Seq<u8>>, line: Seq<u8>)
    requires
        strictly_increasing(lines),
    ensures
        strictly_increasing(inserted(lines, line)),
        forall|x: Seq<u8>|
            #![trigger inserted(lines, line).contains(x)]
            #![trigger lines.contains(x)]
            inserted(lines, line).contains(x) <==> lines.contains(x) || x == line,
    decreases lines.len(),
{
    let result = inserted(lines, line);
    if lines.len() == 0 {
        lemma_push_contains(lines, line);
        assert(result =~= lines.push(line));
    } else if line_lt(lines.last(), line) {
        lemma_push_contains(lines, line);
        assert forall|i: int, j: int| 0 <= i < j < result.len() implies line_lt(
            result[i],
            result[j],
        ) by {
            if j == lines.len() && i < lines.len() - 1 {
                lemma_line_lt_transitive(lines[i], lines.last(), line);
            }
        }
    } else if lines.last() == line {
        assert(lines[lines.len() - 1] == line);
    } else {
        let front = lines.drop_last();
        let placed = inserted(front, line);
        lemma_inserted(front, line);
        lemma_push_contains(placed, lines.last());
        lemma_push_contains(front, lines.last());
        assert(front.push(lines.last()) =~= lines);
        lemma_line_lt_trichotomy(lines.last(), line);
        assert forall|i: int, j: int| 0 <= i < j < result.len() implies line_lt(
            result[i],
            result[j],
        ) by {
            if j == placed.len() {
                assert(placed.contains(placed[i]));
                if placed[i] != line {
                    let k = choose|k: int| 0 <= k < front.len() && front[k] == placed[i];
                    assert(line_lt(lines[k], lines[lines.len() - 1]));
                }
            }
        }
    }
}

/// A set of lines has at most one listing.
pub proof fn lemma_listing_unique(a: Seq<Seq<u8>>, b: Seq<Seq<u8>>, set: Set<Seq<u8>>)
    requires
        lists(a, set),
        lists(b, set),
    ensures
        a == b,
    decreases a.len(),
{
    if a.len() == 0 {
        if b.len() > 0 {
            assert(b.contains(b[0]));
            assert(a.contains(b[0]));
        }
        assert(a =~= b);
    } else if b.len() == 0 {
        assert(a.contains(a[0]));
        assert(b.contains(a[0]));
    } else {
        let top_a = a.last();
        let top_b = b.last();
        assert(a.contains(top_a));
        assert(b.contains(top_b));
        assert(b.contains(top_a));
        assert(a.contains(top_b));
        let ka = choose|k: int| 0 <= k < a.len() && a[k] == top_b;
        let kb = choose|k: int| 0 <= k < b.len() && b[k] == top_a;
        lemma_line_lt_trichotomy(top_a, top_b);
        assert(top_a == top_b) by {
            if ka < a.len() - 1 {
                assert(line_lt(a[ka], a[a.len() - 1]));
            }
            if kb < b.len() - 1 {
                assert(line_lt(b[kb], b[b.len() - 1]));
            }
        }
        let rest = set.remove(top_a);
        lemma_front_lists(a, set);
        lemma_front_lists(b, set);
        lemma_listing_unique(a.drop_last(), b.drop_last(), rest);
        assert(a =~= a.drop_last().push(top_a));
        assert(b =~= b.drop_last().push(top_b));
    }
}

/// Without its last line, a listing lists the set without that line.
proof fn lemma_front_lists(lines: Seq<Seq<u8>>, set: Set<Seq<u8>>)
    requires
        lists(lines, set),
        lines.len() > 0,
    ensures
        lists(lines.drop_last(), set.remove(lines.last())),
{
    let front = lines.drop_last();
    let top = lines.last();
    lemma_push_contains(front, top);
    assert(front.push(top) =~= lines);
    assert forall|x: Seq<u8>| front.contains(x) <==> set.remove(top).contains(x) by {
        if front.contains(x) {
            let k = choose|k: int| 0 <= k < front.len() && front[k] == x;
            assert(line_lt(lines[k], lines[lines.len() - 1]));
            lemma_line_lt_irreflexive(top);
        }
    }
}

/// Every finite set of lines has a listing, and `sorted_lines` is it.
pub proof fn lemma_sorted_lines_lists(set: Set<Seq<u8>>)
    requires
        set.finite(),
    ensures
        lists(sorted_lines(set), set),
    decreases set.len(),
{
    if set.len() == 0 {
        let none = Seq::<Seq<u8>>::empty();
        assert(lists(none, set)) by {
            assert forall|line: Seq<u8>| none.contains(line) <==> set.contains(line) by {
                if set.contains(line) {
                    assert(set.len() != 0);
                }
            }
        }
    } else {
        let line = set.choose();
        let rest = set.remove(line);
        lemma_sorted_lines_lists(rest);
        let listing = sorted_lines(rest);
        lemma_inserted(listing, line);
        assert(lists(inserted(listing, line), set));
    }
}

/// A strictly increasing sequence is the listing of what it holds.
pub proof fn lemma_increasing_is_sorted_lines(lines: Seq<Seq<u8>>)
    requires
        strictly_increasing(lines),
    ensures
        lines.to_set().finite(),
        lists(lines, lines.to_set()),
        sorted_lines(lines.to_set()) == lines,
{
    vstd::seq_lib::seq_to_set_is_finite(lines);
    assert(lists(lines, lines.to_set()));
    lemma_listing_unique(sorted_lines(lines.to_set()), lines, lines.to_set());
}

/// What a filtered sequence holds: the elements of the sequence of which the
/// predicate holds.
pub proof fn lemma_filter_members<A>(s: Seq<A>, pred: spec_fn(A) -> bool)
    ensures
        forall|x: A| #[trigger] s.filter(pred).contains(x) <==> s.contains(x) && pred(x),
    decreases s.len(),
{
    reveal(Seq::filter);
    if s.len() > 0 {
        let front = s.drop_last();
        lemma_filter_members(front, pred);
        lemma_push_contains(front, s.last());
        lemma_push_contains(front.filter(pred), s.last());
        assert(front.push(s.last()) =~= s);
    }
}

/// Filtering what was filtered changes nothing.
pub proof fn lemma_filter_twice<A>(s: Seq<A>, pred: spec_fn(A) -> bool)
    ensures
        s.filter(pred).filter(pred) == s.filter(pred),
    decreases s.len(),
{
    reveal(Seq::filter);
    if s.len() > 0 {
        let front = s.drop_last();
        lemma_filter_twice(front, pred);
        if pred(s.last()) {
            assert(front.filter(pred).push(s.last()).drop_last() =~= front.filter(pred));
        }
    }
}

/// Filtering keeps a strictly increasing sequence strictly increasing.
pub proof fn lemma_filter_increasing(lines: Seq<Seq<u8>>, pred: spec_fn(Seq<u8>) -> bool)
    requires
        strictly_increasing(lines),
    ensures
        strictly_increasing(lines.filter(pred)),
    decreases lines.len(),
{
    reveal(Seq::filter);
    if lines.len() > 0 {
        let front = lines.drop_last();
        let rest = front.filter(pred);
        lemma_filter_increasing(front, pred);
        lemma_filter_members(front, pred);
        if pred(lines.last()) {
            assert forall|i: int, j: int| 0 <= i < j < rest.len() + 1 implies line_lt(
                rest.push(lines.last())[i],
                rest.push(lines.last())[j],
            ) by {
                if j == rest.len() {
                    assert(rest.contains(rest[i]));
                    let k = choose|k: int| 0 <= k < front.len() && front[k] == rest[i];
                    assert(line_lt(lines[k], lines[lines.len() - 1]));
                }
            }
        }
    }
}

/// A finite set of lines.
pub struct LineSet {
    lines: Vec<Vec<u8>>,
}

impl View for LineSet {
    type V = Set<Seq<u8>>;

    closed spec fn view(&self) -> Set<Seq<u8>> {
        line_views(self.lines@).to_set()
    }
}

/// A copy of a line.
pub fn copy_of(line: &Vec<u8>) -> (copy: Vec<u8>)
    ensures
        copy@ == line@,
{
    let copy = line.clone();
    assert(copy@ =~= line@);
    copy
}

/// Takes the line at `i` out of a vector, and leaves an empty line there.
pub fn take_line(lines: &mut Vec<Vec<u8>>, i: usize) -> (line: Vec<u8>)
    requires
        i < old(lines).len(),
    ensures
        line@ == old(lines)@[i as int]@,
        final(lines).len() == old(lines).len(),
        forall|k: int|
            0 <= k < old(lines).len() && k != i ==> (#[trigger] final(lines)@[k])@ == old(
                lines,
            )@[k]@,
{
    let mut line: Vec<u8> = Vec::new();
    std::mem::swap(&mut line, &mut lines[i]);
    line
}

/// A copy of every line of a vector.
fn copy_lines(lines: &Vec<Vec<u8>>) -> (copy: Vec<Vec<u8>>)
    ensures
        line_views(copy@) == line_views(lines@),
{
    let mut copy: Vec<Vec<u8>> = Vec::new();
    let mut i: usize = 0;
    while i < lines.len()
        invariant
            i <= lines.len(),
            copy.len() == i,
            forall|k: int| 0 <= k < i ==> (#[trigger] copy@[k])@ == lines@[k]@,
        decreases lines.len() - i,
    {
        copy.push(copy_of(&lines[i]));
        i += 1;
    }
    assert(line_views(copy@) =~= line_views(lines@));
    copy
}

/// Merges two strictly increasing vectors of lines into the strictly
/// increasing vector of the lines that either holds.
fn merged(a: Vec<Vec<u8>>, b: Vec<Vec<u8>>) -> (out: Vec<Vec<u8>>)
    requires
        strictly_increasing(line_views(a@)),
        strictly_increasing(line_views(b@)),
    ensures
        strictly_increasing(line_views(out@)),
        forall|x: Seq<u8>|
            #![trigger line_views(out@).contains(x)]
            line_views(out@).contains(x) <==> line_views(a@).contains(x) || line_views(
                b@,
            ).contains(x),
{
    let ghost la = line_views(a@);
    let ghost lb = line_views(b@);
    let mut a = a;
    let mut b = b;
    let mut out: Vec<Vec<u8>> = Vec::new();
    let mut i: usize = 0;
    let mut j: usize = 0;
    while i < a.len() || j < b.len()
        invariant
            i <= a.len(),
            j <= b.len(),
            a.len() == la.len(),
            b.len() == lb.len(),
            forall|k: int| i <= k < a.len() ==> (#[trigger] a@[k])@ == la[k],
            forall|k: int| j <= k < b.len() ==> (#[trigger] b@[k])@ == lb[k],
            strictly_increasing(la),
            strictly_increasing(lb),
            strictly_increasing(line_views(out@)),
            forall|k: int|
                0 <= k < out.len() ==> (i < a.len() ==> line_lt(
                    #[trigger] line_views(out@)[k],
                    la[i as int],
                )) && (j < b.len() ==> line_lt(line_views(out@)[k], lb[j as int])),
            forall|x: Seq<u8>|
                #![trigger line_views(out@).contains(x)]
                line_views(out@).contains(x) <==> la.take(i as int).contains(x) || lb.take(
                    j as int,
                ).contains(x),
        decreases (a.len() - i) + (b.len() - j),
    {
        let ghost before = line_views(out@);
        let ghost i0 = i as int;
        let ghost j0 = j as int;
        let order = if j >= b.len() {
            LineOrder::Before
        } else if i >= a.len() {
            LineOrder::After
        } else {
            order_of(&a[i], &b[j])
        };
        let take_a = order != LineOrder::After;
        let take_b = order != LineOrder::Before;
        let line = if take_a {
            take_line(&mut a, i)
        } else {
            take_line(&mut b, j)
        };
        proof {
            if i0 < la.len() && j0 < lb.len() {
                lemma_line_lt_trichotomy(la[i0], lb[j0]);
            }
            assert(take_a && take_b ==> la[i0] == lb[j0]);
            lemma_push_contains(before, line@);
            assert(line_views(out@.push(line)) =~= before.push(line@));
            if take_a {
                lemma_push_contains(la.take(i0), la[i0]);
                assert(la.take(i0 + 1) =~= la.take(i0).push(la[i0]));
            }
            if take_b {
                lemma_push_contains(lb.take(j0), lb[j0]);
                assert(lb.take(j0 + 1) =~= lb.take(j0).push(lb[j0]));
            }
            assert forall|k: int| 0 <= k < before.len() implies (i0 + 1 < la.len() ==> line_lt(
                #[trigger] before[k],
                la[i0 + 1],
            )) && (j0 + 1 < lb.len() ==> line_lt(before[k], lb[j0 + 1])) by {
                if i0 + 1 < la.len() {
                    lemma_line_lt_transitive(before[k], la[i0], la[i0 + 1]);
                }
                if j0 + 1 < lb.len() {
                    lemma_line_lt_transitive(before[k], lb[j0], lb[j0 + 1]);
                }
            }
            if take_a && !take_b && j0 < lb.len() && i0 + 1 < la.len() {
                assert(line_lt(la[i0], la[i0 + 1]));
            }
            if take_b && !take_a && i0 < la.len() && j0 + 1 < lb.len() {
                assert(line_lt(lb[j0], lb[j0 + 1]));
            }
        }
        out.push(line);
        if take_a {
            i += 1;
        }
        if take_b {
            j += 1;
        }
    }
    proof {
        assert(la.take(i as int) =~= la);
        assert(lb.take(j as int) =~= lb);
    }
    out
}

/// Sorts lines by merging, and drops the repeated ones.
fn sorted(lines: Vec<Vec<u8>>) -> (out: Vec<Vec<u8>>)
    ensures
        strictly_increasing(line_views(out@)),
        forall|x: Seq<u8>|
            #![trigger line_views(out@).contains(x)]
            line_views(out@).contains(x) <==> line_views(lines@).contains(x),
    decreases lines.len(),
{
    if lines.len() <= 1 {
        return lines;
    }
    let ghost all = line_views(lines@);
    let mut left = lines;
    let mid = left.len() / 2;
    let right = left.split_off(mid);
    proof {
        lemma_subrange_contains(all, 0, mid as int, all.len() as int);
        assert(all.subrange(0, all.len() as int) =~= all);
        assert(line_views(left@) =~= all.subrange(0, mid as int));
        assert(line_views(right@) =~= all.subrange(mid as int, all.len() as int));
    }
    merged(sorted(left), sorted(right))
}

impl LineSet {
    #[verifier::type_invariant]
    spec fn ordered(self) -> bool {
        strictly_increasing(line_views(self.lines@))
    }

    /// The set of the lines that a vector holds.
    pub fn from_lines(lines: Vec<Vec<u8>>) -> (set: Self)
        ensures
            set@ == line_views(lines@).to_set(),
    {
        let listing = sorted(lines);
        proof {
            assert(line_views(listing@).to_set() =~= line_views(lines@).to_set());
        }
        LineSet { lines: listing }
    }

    /// The set of the lines of a vector that is strictly increasing already.
    pub fn from_sorted(lines: Vec<Vec<u8>>) -> (set: Self)
        requires
            strictly_increasing(line_views(lines@)),
        ensures
            set@ == line_views(lines@).to_set(),
    {
        LineSet { lines }
    }

    /// The lines that this set or the other holds.
    pub fn union(&self, other: &LineSet) -> (both: Self)
        ensures
            both@ == self@.union(other@),
    {
        proof {
            use_type_invariant(self);
            use_type_invariant(other);
        }
        let lines = merged(copy_lines(&self.lines), copy_lines(&other.lines));
        proof {
            assert(line_views(lines@).to_set() =~= self@.union(other@));
        }
        LineSet { lines }
    }

    /// Whether the two sets hold the same lines.
    pub fn same_as(&self, other: &LineSet) -> (same: bool)
        ensures
            same == (self@ == other@),
    {
        proof {
            use_type_invariant(self);
            use_type_invariant(other);
            lemma_increasing_is_sorted_lines(line_views(self.lines@));
            lemma_increasing_is_sorted_lines(line_views(other.lines@));
            if self@ =~= other@ {
                lemma_listing_unique(
                    line_views(self.lines@),
                    line_views(other.lines@),
                    self@,
                );
            }
        }
        if self.lines.len() != other.lines.len() {
            proof {
                assert(line_views(self.lines@).len() != line_views(other.lines@).len());
            }
            return false;
        }
        let mut k: usize = 0;
        while k < self.lines.len()
            invariant
                k <= self.lines.len(),
                self.lines.len() == other.lines.len(),
                forall|m: int| 0 <= m < k ==> self.lines@[m]@ == other.lines@[m]@,
                self@ == other@ ==> line_views(self.lines@) == line_views(other.lines@),
            decreases self.lines.len() - k,
        {
            if !same_line(&self.lines[k], &other.lines[k]) {
                proof {
                    if self@ == other@ {
                        assert(line_views(self.lines@)[k as int] == line_views(
                            other.lines@,
                        )[k as int]);
                    }
                }
                return false;
            }
            k += 1;
        }
        proof {
            assert(line_views(self.lines@) =~= line_views(other.lines@));
        }
        true
    }

    /// The lines of the set in byte-lexicographic order, as a vector of its
    /// own.
    pub fn into_lines(self) -> (lines: Vec<Vec<u8>>)
        ensures
            self@.finite(),
            lists(line_views(lines@), self@),
            line_views(lines@) == sorted_lines(self@),
    {
        proof {
            use_type_invariant(&self);
            lemma_increasing_is_sorted_lines(line_views(self.lines@));
        }
        self.lines
    }

    /// The lines of the set in byte-lexicographic order.
    pub fn as_lines(&self) -> (lines: &Vec<Vec<u8>>)
        ensures
            self@.finite(),
            lists(line_views(lines@), self@),
            line_views(lines@) == sorted_lines(self@),
    {
        proof {
            use_type_invariant(self);
            lemma_increasing_is_sorted_lines(line_views(self.lines@));
        }
        &self.lines
    }
}

} // verus!
