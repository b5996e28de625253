//! Lines as byte strings, and the byte-lexicographic order on them.

use vstd::prelude::*;

verus! {

/// The byte that ends a line.
pub const NEWLINE: u8 = 10u8;

/// The byte that, at the end of a line, continues it on the next one.
pub const CONTINUATION: u8 = 92u8;

/// The byte put between the parts of a folded line.
pub const SPACE: u8 = 32u8;

/// How one line stands to another in byte-lexicographic order.
#[derive(Clone, Copy, Debug, PartialEq, Eq, Structural)]
pub enum LineOrder {
    Before,
    Same,
    After,
}

/// The views of a vector of lines.
pub open spec fn line_views(lines: Seq<Vec<u8>>) -> Seq<Seq<u8>> {
    lines.map_values(|line: Vec<u8>| line@)
}

/// `a` comes strictly before `b`: `a` is a proper prefix of `b`, or the two
/// differ and at the first place where they do `a` holds the smaller byte.
pub open spec fn line_lt(a: Seq<u8>, b: Seq<u8>) -> bool
    decreases a.len(),
{
    if b.len() == 0 {
        false
    } else if a.len() == 0 {
        true
    } else if a[0] == b[0] {
        line_lt(a.drop_first(), b.drop_first())
    } else {
        a[0] < b[0]
    }
}

/// No line comes before itself.
pub proof fn lemma_line_lt_irreflexive(a: Seq<u8>)
    ensures
        !line_lt(a, a),
    decreases a.len(),
{
    if a.len() > 0 {
        lemma_line_lt_irreflexive(a.drop_first());
    }
}

/// Of two lines exactly one holds: the first comes before the second, they
/// are equal, or the second comes before the first.
pub proof fn lemma_line_lt_trichotomy(a: Seq<u8>, b: Seq<u8>)
    ensures
        line_lt(a, b) || a == b || line_lt(b, a),
        !(line_lt(a, b) && a == b),
        !(line_lt(b, a) && a == b),
        !(line_lt(a, b) && line_lt(b, a)),
    decreases a.len(),
{
    if a.len() == 0 || b.len() == 0 {
        if a.len() == 0 && b.len() == 0 {
            assert(a =~= b);
        }
    } else if a[0] == b[0] {
        lemma_line_lt_trichotomy(a.drop_first(), b.drop_first());
        if a.drop_first() == b.drop_first() {
            assert(a =~= seq![a[0]] + a.drop_first());
            assert(b =~= seq![b[0]] + b.drop_first());
        }
    }
}

/// The order is transitive.
pub proof fn lemma_line_lt_transitive(a: Seq<u8>, b: Seq<u8>, c: Seq<u8>)
    requires
        line_lt(a, b),
        line_lt(b, c),
    ensures
        line_lt(a, c),
    decreases a.len(),
{
    if a.len() > 0 && a[0] == b[0] && b[0] == c[0] {
        lemma_line_lt_transitive(a.drop_first(), b.drop_first(), c.drop_first());
    }
}

/// Compares two lines byte by byte.
pub fn order_of(a: &Vec<u8>, b: &Vec<u8>) -> (order: LineOrder)
    ensures
        order == LineOrder::Before <==> line_lt(a@, b@),
        order == LineOrder::Same <==> a@ == b@,
        order == LineOrder::After <==> line_lt(b@, a@),
{
    let mut i: usize = 0;
    proof {
        lemma_line_lt_trichotomy(a@, b@);
        assert(a@.skip(0) =~= a@);
        assert(b@.skip(0) =~= b@);
    }
    while i < a.len() && i < b.len()
        invariant
            i <= a.len(),
            i <= b.len(),
            line_lt(a@, b@) == line_lt(a@.skip(i as int), b@.skip(i as int)),
            line_lt(b@, a@) == line_lt(b@.skip(i as int), a@.skip(i as int)),
        decreases a.len() - i,
    {
        proof {
            assert(a@.skip(i as int).drop_first() =~= a@.skip(i + 1));
            assert(b@.skip(i as int).drop_first() =~= b@.skip(i + 1));
        }
        if a[i] < b[i] {
            return LineOrder::Before;
        }
        if a[i] > b[i] {
            return LineOrder::After;
        }
        i += 1;
    }
    if i < b.len() {
        LineOrder::Before
    } else if i < a.len() {
        LineOrder::After
    } else {
        LineOrder::Same
    }
}

/// Whether two lines hold the same bytes.
pub fn same_line(a: &Vec<u8>, b: &Vec<u8>) -> (same: bool)
    ensures
        same == (a@ == b@),
{
    order_of(a, b) == LineOrder::Same
}

} // verus!
