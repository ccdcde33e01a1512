use vstd::prelude::*;

verus! {

/// One underline segment on one source line.
#[derive(Clone, Debug, PartialEq, Eq)]
pub struct Annotation {
    /// First column, counted in characters from 0.
    pub start_col: usize,
    /// Column after the last one (exclusive).
    pub end_col: usize,
    /// Whether this marks the diagnostic's main locus.
    pub is_primary: bool,
    /// Whether a span over several lines was cut down to one column.
    pub is_minimized: bool,
    /// Text shown next to or below the underline.
    pub label: Option<String>,
}

/// The end column of the annotation built from a span resolved to
/// (`start_line`, `start_col`) .. (`end_line`, `end_col`): a span over several
/// lines, and an empty one, become one column wide.
pub open spec fn built_end(start_line: nat, start_col: nat, end_line: nat, end_col: nat) -> nat {
    if start_line != end_line || end_col <= start_col {
        start_col + 1
    } else {
        end_col
    }
}

/// Whether the column range of either annotation holds the first column of the other.
pub open spec fn spans_overlap(a: Annotation, b: Annotation) -> bool {
    (b.start_col <= a.start_col && a.start_col < b.end_col) || (a.start_col <= b.start_col
        && b.start_col < a.end_col)
}

/// `a` comes no later than `b` when ordering by (start column, end column).
pub open spec fn col_le(a: Annotation, b: Annotation) -> bool {
    a.start_col < b.start_col || (a.start_col == b.start_col && a.end_col <= b.end_col)
}

/// Ascending by (start column, end column).
pub open spec fn is_col_sorted(s: Seq<Annotation>) -> bool {
    forall|i: int, j: int| 0 <= i < j < s.len() ==> col_le(#[trigger] s[i], #[trigger] s[j])
}

/// `x` put into `s` after every element that orders no later than it.
pub open spec fn insert_after_equals(s: Seq<Annotation>, x: Annotation) -> Seq<Annotation>
    decreases s.len(),
{
    if s.len() == 0 {
        seq![x]
    } else if col_le(s.last(), x) {
        s.push(x)
    } else {
        insert_after_equals(s.drop_last(), x).push(s.last())
    }
}

/// The stable sort of `s` by (start column, end column): elements with the same
/// columns keep their relative order.
pub open spec fn sorted_by_cols(s: Seq<Annotation>) -> Seq<Annotation>
    decreases s.len(),
{
    if s.len() == 0 {
        s
    } else {
        insert_after_equals(sorted_by_cols(s.drop_last()), s.last())
    }
}

impl Annotation {
    /// The annotation for a span resolved to (`start_line`, `start_col`) ..
    /// (`end_line`, `end_col`), placed on `start_line`.
    pub fn from_position(
        start_line: usize,
        start_col: usize,
        end_line: usize,
        end_col: usize,
        is_primary: bool,
        label: Option<String>,
    ) -> (r: Annotation)
        requires
            start_col < usize::MAX,
        ensures
            r.start_col == start_col,
            r.end_col == built_end(start_line as nat, start_col as nat, end_line as nat, end_col as nat),
            r.start_col < r.end_col,
            r.is_minimized == (start_line != end_line),
            r.is_primary == is_primary,
            r.label == label,
            start_col == end_col ==> r.end_col == start_col + 1,
            start_line != end_line ==> r.is_minimized && r.end_col == start_col + 1,
    {
        let is_minimized = start_line != end_line;
        let end = if is_minimized || end_col <= start_col {
            start_col + 1
        } else {
            end_col
        };
        Annotation { start_col, end_col: end, is_primary, is_minimized, label }
    }

    /// A copy with the same fields.
    pub fn duplicate(&self) -> (r: Annotation)
        ensures
            r == *self,
    {
        let label = match &self.label {
            Some(s) => Some(s.clone()),
            None => None,
        };
        Annotation {
            start_col: self.start_col,
            end_col: self.end_col,
            is_primary: self.is_primary,
            is_minimized: self.is_minimized,
            label,
        }
    }

    /// Whether this annotation carries a label.
    pub fn has_label(&self) -> (r: bool)
        ensures
            r == self.label.is_some(),
    {
        self.label.is_some()
    }
}

/// Whether the column range of either annotation holds the first column of the other.
pub fn overlaps(a1: &Annotation, a2: &Annotation) -> (r: bool)
    ensures
        r == spans_overlap(*a1, *a2),
{
    (a2.start_col <= a1.start_col && a1.start_col < a2.end_col) || (a1.start_col <= a2.start_col
        && a2.start_col < a1.end_col)
}

fn cols_le(a: &Annotation, b: &Annotation) -> (r: bool)
    ensures
        r == col_le(*a, *b),
{
    a.start_col < b.start_col || (a.start_col == b.start_col && a.end_col <= b.end_col)
}

/// The overlap test gives the same answer either way round.
pub proof fn lemma_overlap_symmetric(a: Annotation, b: Annotation)
    ensures
        spans_overlap(a, b) == spans_overlap(b, a),
{
}

proof fn lemma_insert_at(s: Seq<Annotation>, x: Annotation, p: int)
    requires
        0 <= p <= s.len(),
        forall|k: int| p <= k < s.len() ==> !col_le(#[trigger] s[k], x),
        p > 0 ==> col_le(s[p - 1], x),
    ensures
        insert_after_equals(s, x) == s.insert(p, x),
    decreases s.len(),
{
    if s.len() == 0 {
        assert(s.insert(p, x) =~= seq![x]);
    } else if p == s.len() {
        assert(s.insert(p, x) =~= s.push(x));
    } else {
        let d = s.drop_last();
        assert(!col_le(s[s.len() - 1], x));
        assert forall|k: int| p <= k < d.len() implies !col_le(#[trigger] d[k], x) by {
            assert(d[k] == s[k]);
        }
        lemma_insert_at(d, x, p);
        assert(d.insert(p, x).push(s.last()) =~= s.insert(p, x));
    }
}

proof fn lemma_insert_keeps_sorted(s: Seq<Annotation>, x: Annotation)
    requires
        is_col_sorted(s),
    ensures
        is_col_sorted(insert_after_equals(s, x)),
        insert_after_equals(s, x).len() == s.len() + 1,
    decreases s.len(),
{
    if s.len() == 0 {
    } else if col_le(s.last(), x) {
        let t = s.push(x);
        assert forall|i: int, j: int| 0 <= i < j < t.len() implies col_le(#[trigger] t[i], #[trigger] t[j]) by {
            if j < s.len() {
            } else {
                assert(col_le(s[i], s.last()) || i == s.len() - 1);
            }
        }
    } else {
        let d = s.drop_last();
        assert forall|i: int, j: int| 0 <= i < j < d.len() implies col_le(#[trigger] d[i], #[trigger] d[j]) by {
            assert(d[i] == s[i] && d[j] == s[j]);
        }
        lemma_insert_keeps_sorted(d, x);
        let u = insert_after_equals(d, x);
        let t = u.push(s.last());
        // every element of u is d's or x, each ordering no later than s.last()
        lemma_insert_members(d, x);
        assert forall|i: int, j: int| 0 <= i < j < t.len() implies col_le(#[trigger] t[i], #[trigger] t[j]) by {
            if j < u.len() {
            } else {
                if u[i] != x {
                    let k = choose|k: int| 0 <= k < d.len() && d[k] == u[i];
                    assert(col_le(s[k], s[s.len() - 1]));
                }
            }
        }
    }
}

proof fn lemma_insert_members(s: Seq<Annotation>, x: Annotation)
    ensures
        forall|i: int|
            0 <= i < insert_after_equals(s, x).len() ==> #[trigger] insert_after_equals(s, x)[i] == x
                || exists|k: int| 0 <= k < s.len() && s[k] == insert_after_equals(s, x)[i],
        insert_after_equals(s, x).len() == s.len() + 1,
    decreases s.len(),
{
    if s.len() == 0 {
    } else if col_le(s.last(), x) {
        let t = s.push(x);
        assert forall|i: int| 0 <= i < t.len() implies #[trigger] t[i] == x || exists|k: int|
            0 <= k < s.len() && s[k] == t[i] by {
            if i < s.len() {
                assert(s[i] == t[i]);
            }
        }
    } else {
        let d = s.drop_last();
        lemma_insert_members(d, x);
        let u = insert_after_equals(d, x);
        let t = u.push(s.last());
        assert forall|i: int| 0 <= i < t.len() implies #[trigger] t[i] == x || exists|k: int|
            0 <= k < s.len() && s[k] == t[i] by {
            if i < u.len() {
                if u[i] != x {
                    let k = choose|k: int| 0 <= k < d.len() && d[k] == u[i];
                    assert(s[k] == t[i]);
                }
            } else {
                assert(s[s.len() - 1] == t[i]);
            }
        }
    }
}

/// The stable sort by columns gives an ascending sequence of the same length.
pub proof fn lemma_sort_sorted(s: Seq<Annotation>)
    ensures
        is_col_sorted(sorted_by_cols(s)),
        sorted_by_cols(s).len() == s.len(),
    decreases s.len(),
{
    if s.len() > 0 {
        lemma_sort_sorted(s.drop_last());
        lemma_insert_keeps_sorted(sorted_by_cols(s.drop_last()), s.last());
    }
}

/// Sorting a sequence that is already ascending by columns leaves it as it is.
pub proof fn lemma_sort_of_sorted(s: Seq<Annotation>)
    requires
        is_col_sorted(s),
    ensures
        sorted_by_cols(s) == s,
    decreases s.len(),
{
    if s.len() > 0 {
        let d = s.drop_last();
        assert forall|i: int, j: int| 0 <= i < j < d.len() implies col_le(#[trigger] d[i], #[trigger] d[j]) by {
            assert(d[i] == s[i] && d[j] == s[j]);
        }
        lemma_sort_of_sorted(d);
        if d.len() > 0 {
            assert(col_le(s[d.len() - 1], s[s.len() - 1]));
        }
        assert(d.push(s.last()) =~= s);
    }
}

/// Sorting twice gives what sorting once gives.
pub proof fn lemma_sort_idempotent(s: Seq<Annotation>)
    ensures
        sorted_by_cols(sorted_by_cols(s)) == sorted_by_cols(s),
{
    lemma_sort_sorted(s);
    lemma_sort_of_sorted(sorted_by_cols(s));
}

/// Sorts by (start column, end column), keeping the order of annotations with
/// the same columns.
pub fn sort_annotations(v: &Vec<Annotation>) -> (r: Vec<Annotation>)
    ensures
        r@ == sorted_by_cols(v@),
        is_col_sorted(r@),
{
    let mut out: Vec<Annotation> = Vec::new();
    let mut i: usize = 0;
    while i < v.len()
        invariant
            i <= v@.len(),
            out@ == sorted_by_cols(v@.subrange(0, i as int)),
        decreases v.len() - i,
    {
        let x = v[i].duplicate();
        let mut p: usize = out.len();
        while p > 0 && !cols_le(&out[p - 1], &x)
            invariant
                p <= out@.len(),
                forall|k: int| p <= k < out@.len() ==> !col_le(#[trigger] out@[k], x),
            decreases p,
        {
            p = p - 1;
        }
        proof {
            lemma_insert_at(out@, x, p as int);
            let t = v@.subrange(0, i + 1);
            assert(t.drop_last() =~= v@.subrange(0, i as int));
        }
        out.insert(p, x);
        i = i + 1;
    }
    assert(v@.subrange(0, i as int) =~= v@);
    proof {
        lemma_sort_sorted(v@);
    }
    out
}

} // verus!
