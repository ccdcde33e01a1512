use vstd::prelude::*;
use crate::annotation::{
    Annotation,
    spans_overlap,
    sorted_by_cols,
    col_le,
    insert_after_equals,
    is_col_sorted,
    overlaps,
    sort_annotations,
    lemma_sort_of_sorted,
    lemma_sort_sorted,
};
use crate::buffer::{
    StyledBuffer,
    put_cell,
    restyle,
    put_text,
    append_text,
    keeps_rows,
    lemma_keeps_trans,
    lemma_put_cell_keeps,
    lemma_put_text_keeps,
    lemma_append_keeps,
    lemma_restyle_keeps,
};
use crate::style::Style;

verus! {

/// The style of an annotation's underline and connectors.
pub open spec fn underline_style(a: Annotation) -> Style {
    if a.is_primary {
        Style::UnderlinePrimary
    } else {
        Style::UnderlineSecondary
    }
}

/// The style of an annotation's label.
pub open spec fn label_style(a: Annotation) -> Style {
    if a.is_primary {
        Style::LabelPrimary
    } else {
        Style::LabelSecondary
    }
}

/// The text of an annotation's label (empty where it has none).
pub open spec fn label_text(a: Annotation) -> Seq<char> {
    match a.label {
        Some(s) => s@,
        None => Seq::empty(),
    }
}

/// The underline cell of `a` at column `col`: `^` or `-`, or in the legacy
/// caret mode a `^` at the first column and `~` after it.
pub open spec fn marker(a: Annotation, col: nat, old_school: bool) -> (char, Style) {
    if old_school {
        (
            if col == a.start_col {
                '^'
            } else {
                '~'
            },
            if a.is_primary {
                Style::UnderlinePrimary
            } else {
                Style::OldSkoolNote
            },
        )
    } else {
        (
            if a.is_primary {
                '^'
            } else {
                '-'
            },
            underline_style(a),
        )
    }
}

/// The grid after the underline of `a` is drawn on row `off + 1` over the
/// columns from its start up to `upto`; outside the legacy mode, and unless `a`
/// is minimized, the source text on row `off` takes the underline's style too.
pub open spec fn draw_underline(
    g: Seq<Seq<(char, Style)>>,
    off: nat,
    a: Annotation,
    upto: nat,
    old_school: bool,
) -> Seq<Seq<(char, Style)>>
    decreases upto,
{
    if upto <= a.start_col {
        g
    } else {
        let col = (upto - 1) as nat;
        let g1 = put_cell(
            draw_underline(g, off, a, col, old_school),
            off + 1,
            col,
            marker(a, col, old_school),
        );
        if old_school || a.is_minimized {
            g1
        } else {
            restyle(g1, off, col, underline_style(a))
        }
    }
}

/// The grid after the underlines of `anns` are drawn in order, later ones over earlier ones.
pub open spec fn draw_underlines(
    g: Seq<Seq<(char, Style)>>,
    off: nat,
    anns: Seq<Annotation>,
    old_school: bool,
) -> Seq<Seq<(char, Style)>>
    decreases anns.len(),
{
    if anns.len() == 0 {
        g
    } else {
        let a = anns.last();
        draw_underline(
            draw_underlines(g, off, anns.drop_last(), old_school),
            off,
            a,
            a.end_col as nat,
            old_school,
        )
    }
}

/// The annotations of `s` that carry a label, in order.
pub open spec fn labeled_of(s: Seq<Annotation>) -> Seq<Annotation>
    decreases s.len(),
{
    if s.len() == 0 {
        s
    } else if s.last().label.is_some() {
        labeled_of(s.drop_last()).push(s.last())
    } else {
        labeled_of(s.drop_last())
    }
}

/// The annotations of `s` without a label, in order.
pub open spec fn unlabeled_of(s: Seq<Annotation>) -> Seq<Annotation>
    decreases s.len(),
{
    if s.len() == 0 {
        s
    } else if s.last().label.is_none() {
        unlabeled_of(s.drop_last()).push(s.last())
    } else {
        unlabeled_of(s.drop_last())
    }
}

/// The last labeled annotation overlaps no other annotation, so its label can
/// follow the underline row.
pub open spec fn trailing_fits(labeled: Seq<Annotation>, unlabeled: Seq<Annotation>) -> bool {
    &&& labeled.len() > 0
    &&& forall|i: int|
        0 <= i < labeled.len() - 1 ==> !spans_overlap(#[trigger] labeled[i], labeled.last())
    &&& forall|i: int| 0 <= i < unlabeled.len() ==> !spans_overlap(#[trigger] unlabeled[i], labeled.last())
}

/// The grid after `|` connectors of `a` are drawn at its start column on the
/// rows `off + 2` up to (not including) `off + k`.
pub open spec fn draw_connectors(g: Seq<Seq<(char, Style)>>, off: nat, a: Annotation, k: nat) -> Seq<
    Seq<(char, Style)>,
>
    decreases k,
{
    if k <= 2 {
        g
    } else {
        put_cell(
            draw_connectors(g, off, a, (k - 1) as nat),
            (off + k - 1) as nat,
            a.start_col as nat,
            ('|', underline_style(a)),
        )
    }
}

/// The grid after the label of `a` hangs `depth` rows below the source row,
/// joined to its underline by connectors.
pub open spec fn draw_hanging(g: Seq<Seq<(char, Style)>>, off: nat, a: Annotation, depth: nat) -> Seq<
    Seq<(char, Style)>,
> {
    put_text(
        draw_connectors(g, off, a, depth),
        off + depth,
        a.start_col as nat,
        label_text(a),
        label_style(a),
    )
}

/// How far below the source row the label of the `i`-th (from 0) of `n`
/// pending annotations hangs: three rows, and one more for each that follows.
pub open spec fn hanging_depth(n: nat, i: nat) -> nat {
    (3 + n - i - 1) as nat
}

/// The grid after the first `i` pending labels are hung in order.
pub open spec fn draw_stacked(
    g: Seq<Seq<(char, Style)>>,
    off: nat,
    pending: Seq<Annotation>,
    i: nat,
) -> Seq<Seq<(char, Style)>>
    decreases i,
{
    if i == 0 {
        g
    } else {
        draw_hanging(
            draw_stacked(g, off, pending, (i - 1) as nat),
            off,
            pending[i - 1],
            hanging_depth(pending.len(), (i - 1) as nat),
        )
    }
}

/// The grid after the annotations of one source line, whose text stands on
/// row `off`, are laid out below it.
pub open spec fn layout(
    g: Seq<Seq<(char, Style)>>,
    off: nat,
    anns: Seq<Annotation>,
    old_school: bool,
) -> Seq<Seq<(char, Style)>> {
    let sorted = sorted_by_cols(anns);
    let g1 = draw_underlines(g, off, sorted, old_school);
    let labeled = labeled_of(sorted);
    if old_school || labeled.len() == 0 {
        g1
    } else if trailing_fits(labeled, unlabeled_of(sorted)) {
        let last = labeled.last();
        draw_stacked(
            append_text(g1, off + 1, seq![' '] + label_text(last), label_style(last)),
            off,
            labeled.drop_last(),
            (labeled.len() - 1) as nat,
        )
    } else {
        draw_stacked(g1, off, labeled, labeled.len())
    }
}

/// The grid after a source line's text is added as a new row and its
/// annotations are laid out below it.
pub open spec fn source_line_layout(
    g: Seq<Seq<(char, Style)>>,
    text: Seq<char>,
    anns: Seq<Annotation>,
    old_school: bool,
) -> Seq<Seq<(char, Style)>> {
    layout(append_text(g, g.len(), text, Style::Quotation), g.len(), anns, old_school)
}

fn draw_underline_exec(buffer: &mut StyledBuffer, off: usize, a: &Annotation, old_school: bool)
    ensures
        final(buffer)@ == draw_underline(old(buffer)@, off as nat, *a, a.end_col as nat, old_school),
{
    let ghost g0 = buffer@;
    if a.end_col <= a.start_col {
        return;
    }
    let mut p: usize = a.start_col;
    while p < a.end_col
        invariant
            a.start_col <= p <= a.end_col,
            buffer@ == draw_underline(g0, off as nat, *a, p as nat, old_school),
        decreases a.end_col - p,
    {
        let (c, st) = if old_school {
            (
                if p == a.start_col {
                    '^'
                } else {
                    '~'
                },
                if a.is_primary {
                    Style::UnderlinePrimary
                } else {
                    Style::OldSkoolNote
                },
            )
        } else if a.is_primary {
            ('^', Style::UnderlinePrimary)
        } else {
            ('-', Style::UnderlineSecondary)
        };
        if off < usize::MAX {
            buffer.putc(off + 1, p, c, st);
        }
        if !old_school && !a.is_minimized {
            buffer.set_style(off, p, st);
        }
        p = p + 1;
    }
}

fn partition_labels(sorted: &Vec<Annotation>) -> (r: (Vec<Annotation>, Vec<Annotation>))
    ensures
        r.0@ == labeled_of(sorted@),
        r.1@ == unlabeled_of(sorted@),
{
    let mut labeled: Vec<Annotation> = Vec::new();
    let mut unlabeled: Vec<Annotation> = Vec::new();
    let mut i: usize = 0;
    while i < sorted.len()
        invariant
            i <= sorted@.len(),
            labeled@ == labeled_of(sorted@.subrange(0, i as int)),
            unlabeled@ == unlabeled_of(sorted@.subrange(0, i as int)),
        decreases sorted.len() - i,
    {
        let a = sorted[i].duplicate();
        proof {
            let t = sorted@.subrange(0, i + 1);
            assert(t.drop_last() =~= sorted@.subrange(0, i as int));
        }
        if a.has_label() {
            labeled.push(a);
        } else {
            unlabeled.push(a);
        }
        i = i + 1;
    }
    assert(sorted@.subrange(0, i as int) =~= sorted@);
    (labeled, unlabeled)
}

fn trailing_label_fits(labeled: &Vec<Annotation>, unlabeled: &Vec<Annotation>) -> (r: bool)
    ensures
        r == trailing_fits(labeled@, unlabeled@),
{
    if labeled.len() == 0 {
        return false;
    }
    let last = &labeled[labeled.len() - 1];
    let mut i: usize = 0;
    while i < labeled.len() - 1
        invariant
            labeled@.len() > 0,
            *last == labeled@.last(),
            i <= labeled@.len() - 1,
            forall|k: int| 0 <= k < i ==> !spans_overlap(#[trigger] labeled@[k], labeled@.last()),
        decreases labeled.len() - 1 - i,
    {
        if overlaps(&labeled[i], last) {
            return false;
        }
        i = i + 1;
    }
    let mut j: usize = 0;
    while j < unlabeled.len()
        invariant
            labeled@.len() > 0,
            *last == labeled@.last(),
            j <= unlabeled@.len(),
            forall|k: int| 0 <= k < labeled@.len() - 1 ==> !spans_overlap(#[trigger] labeled@[k], labeled@.last()),
            forall|k: int| 0 <= k < j ==> !spans_overlap(#[trigger] unlabeled@[k], labeled@.last()),
        decreases unlabeled.len() - j,
    {
        if overlaps(&unlabeled[j], last) {
            return false;
        }
        j = j + 1;
    }
    true
}

fn draw_hanging_exec(buffer: &mut StyledBuffer, off: usize, a: &Annotation, depth: usize)
    ensures
        final(buffer)@ == draw_hanging(old(buffer)@, off as nat, *a, depth as nat),
{
    let ghost g0 = buffer@;
    let st = if a.is_primary {
        Style::UnderlinePrimary
    } else {
        Style::UnderlineSecondary
    };
    let mut k: usize = 2;
    while k < depth
        invariant
            2 <= k,
            k <= depth || depth < 2,
            st == underline_style(*a),
            buffer@ == draw_connectors(g0, off as nat, *a, if k <= depth { k as nat } else { depth as nat }),
        decreases depth - k,
    {
        assert(draw_connectors(g0, off as nat, *a, (k + 1) as nat) == put_cell(
            draw_connectors(g0, off as nat, *a, k as nat),
            (off + k) as nat,
            a.start_col as nat,
            ('|', st),
        ));
        if off <= usize::MAX - k {
            buffer.putc(off + k, a.start_col, '|', st);
        }
        k = k + 1;
    }
    assert(buffer@ == draw_connectors(g0, off as nat, *a, depth as nat));
    let lst = if a.is_primary {
        Style::LabelPrimary
    } else {
        Style::LabelSecondary
    };
    if off <= usize::MAX - depth {
        match &a.label {
            Some(s) => buffer.puts(off + depth, a.start_col, s.as_str(), lst),
            None => {},
        }
    } else {
        assert(put_text(buffer@, (off + depth) as nat, a.start_col as nat, label_text(*a), lst) == buffer@)
            by {
            lemma_put_text_beyond(buffer@, (off + depth) as nat, a.start_col as nat, label_text(*a), lst);
        }
    }
}

proof fn lemma_put_text_beyond(g: Seq<Seq<(char, Style)>>, row: nat, col: nat, s: Seq<char>, st: Style)
    requires
        row >= usize::MAX,
    ensures
        put_text(g, row, col, s, st) == g,
    decreases s.len(),
{
    if s.len() > 0 {
        lemma_put_text_beyond(g, row, col, s.drop_last(), st);
    }
}

fn draw_stacked_exec(buffer: &mut StyledBuffer, off: usize, pending: &Vec<Annotation>)
    requires
        pending@.len() + 3 < usize::MAX,
    ensures
        final(buffer)@ == draw_stacked(old(buffer)@, off as nat, pending@, pending@.len()),
{
    let ghost g0 = buffer@;
    let mut i: usize = 0;
    while i < pending.len()
        invariant
            i <= pending@.len(),
            pending@.len() + 3 < usize::MAX,
            buffer@ == draw_stacked(g0, off as nat, pending@, i as nat),
        decreases pending.len() - i,
    {
        let comes_after = pending.len() - i - 1;
        let depth = 3 + comes_after;
        draw_hanging_exec(buffer, off, &pending[i], depth);
        i = i + 1;
    }
}

/// Lays out the annotations of one source line, whose text stands on row
/// `line_offset`: underlines on the row below, then the labels, the last one
/// after its underline where it overlaps nothing, the others hung on rows below.
pub fn render_annotations(
    buffer: &mut StyledBuffer,
    line_offset: usize,
    annotations: &Vec<Annotation>,
    old_school: bool,
)
    requires
        annotations@.len() + 3 < usize::MAX,
    ensures
        final(buffer)@ == layout(old(buffer)@, line_offset as nat, annotations@, old_school),
{
    let ghost g0 = buffer@;
    let sorted = sort_annotations(annotations);
    let ghost s = sorted@;
    let mut i: usize = 0;
    while i < sorted.len()
        invariant
            i <= s.len(),
            s == sorted@,
            buffer@ == draw_underlines(g0, line_offset as nat, s.subrange(0, i as int), old_school),
        decreases sorted.len() - i,
    {
        proof {
            let t = s.subrange(0, i + 1);
            assert(t.drop_last() =~= s.subrange(0, i as int));
        }
        draw_underline_exec(buffer, line_offset, &sorted[i], old_school);
        i = i + 1;
    }
    assert(s.subrange(0, i as int) =~= s);
    let (labeled, unlabeled) = partition_labels(&sorted);
    if labeled.len() == 0 || old_school {
        return;
    }
    proof {
        lemma_labeled_len(s);
        lemma_sort_sorted(annotations@);
    }
    if trailing_label_fits(&labeled, &unlabeled) {
        let last = &labeled[labeled.len() - 1];
        let st = if last.is_primary {
            Style::LabelPrimary
        } else {
            Style::LabelSecondary
        };
        let mut text = String::from_str(" ");
        match &last.label {
            Some(l) => text.append(l.as_str()),
            None => {},
        }
        proof {
            reveal_strlit(" ");
        }
        assert(text@ =~= seq![' '] + label_text(*last));
        if line_offset < usize::MAX {
            buffer.append(line_offset + 1, text.as_str(), st);
        }
        let mut pending = labeled;
        pending.pop();
        assert(pending@ =~= labeled_of(s).drop_last());
        draw_stacked_exec(buffer, line_offset, &pending);
    } else {
        draw_stacked_exec(buffer, line_offset, &labeled);
    }
}

proof fn lemma_labeled_len(s: Seq<Annotation>)
    ensures
        labeled_of(s).len() <= s.len(),
    decreases s.len(),
{
    if s.len() > 0 {
        lemma_labeled_len(s.drop_last());
    }
}

/// Adds the text of a source line as a new row and lays out its annotations below it.
pub fn render_source_line(
    buffer: &mut StyledBuffer,
    text: &str,
    annotations: &Vec<Annotation>,
    old_school: bool,
)
    requires
        annotations@.len() + 3 < usize::MAX,
    ensures
        final(buffer)@ == source_line_layout(old(buffer)@, text@, annotations@, old_school),
{
    let line_offset = buffer.num_lines();
    buffer.append(line_offset, text, Style::Quotation);
    render_annotations(buffer, line_offset, annotations, old_school);
}

proof fn lemma_underline_keeps(g: Seq<Seq<(char, Style)>>, off: nat, a: Annotation, upto: nat, old_school: bool, n: nat)
    requires
        off >= n,
    ensures
        keeps_rows(g, draw_underline(g, off, a, upto, old_school), n),
    decreases upto,
{
    if upto > a.start_col {
        let col = (upto - 1) as nat;
        let g0 = draw_underline(g, off, a, col, old_school);
        lemma_underline_keeps(g, off, a, col, old_school, n);
        let g1 = put_cell(g0, off + 1, col, marker(a, col, old_school));
        lemma_put_cell_keeps(g0, off + 1, col, marker(a, col, old_school), n);
        lemma_keeps_trans(g, g0, g1, n);
        lemma_restyle_keeps(g1, off, col, underline_style(a), n);
        lemma_keeps_trans(g, g1, restyle(g1, off, col, underline_style(a)), n);
    }
}

proof fn lemma_underlines_keep(g: Seq<Seq<(char, Style)>>, off: nat, anns: Seq<Annotation>, old_school: bool, n: nat)
    requires
        off >= n,
    ensures
        keeps_rows(g, draw_underlines(g, off, anns, old_school), n),
    decreases anns.len(),
{
    if anns.len() > 0 {
        let a = anns.last();
        let g0 = draw_underlines(g, off, anns.drop_last(), old_school);
        lemma_underlines_keep(g, off, anns.drop_last(), old_school, n);
        lemma_underline_keeps(g0, off, a, a.end_col as nat, old_school, n);
        lemma_keeps_trans(g, g0, draw_underlines(g, off, anns, old_school), n);
    }
}

proof fn lemma_connectors_keep(g: Seq<Seq<(char, Style)>>, off: nat, a: Annotation, k: nat, n: nat)
    requires
        off >= n,
    ensures
        keeps_rows(g, draw_connectors(g, off, a, k), n),
    decreases k,
{
    if k > 2 {
        let g0 = draw_connectors(g, off, a, (k - 1) as nat);
        lemma_connectors_keep(g, off, a, (k - 1) as nat, n);
        lemma_put_cell_keeps(g0, (off + k - 1) as nat, a.start_col as nat, ('|', underline_style(a)), n);
        lemma_keeps_trans(g, g0, draw_connectors(g, off, a, k), n);
    }
}

proof fn lemma_stacked_keeps(g: Seq<Seq<(char, Style)>>, off: nat, pending: Seq<Annotation>, i: nat, n: nat)
    requires
        off >= n,
    ensures
        keeps_rows(g, draw_stacked(g, off, pending, i), n),
    decreases i,
{
    if i > 0 {
        lemma_stacked_keeps(g, off, pending, (i - 1) as nat, n);
        let g1 = draw_stacked(g, off, pending, (i - 1) as nat);
        let a = pending[i - 1];
        let d = hanging_depth(pending.len(), (i - 1) as nat);
        let g2 = draw_connectors(g1, off, a, d);
        lemma_connectors_keep(g1, off, a, d, n);
        lemma_put_text_keeps(g2, off + d, a.start_col as nat, label_text(a), label_style(a), n);
        lemma_keeps_trans(g1, g2, draw_hanging(g1, off, a, d), n);
        lemma_keeps_trans(g, g1, draw_hanging(g1, off, a, d), n);
    }
}

/// Laying out a source line leaves every row above it as it was.
pub proof fn lemma_source_line_keeps(g: Seq<Seq<(char, Style)>>, text: Seq<char>, anns: Seq<Annotation>, old_school: bool, n: nat)
    requires
        n <= g.len(),
    ensures
        keeps_rows(g, source_line_layout(g, text, anns, old_school), n),
{
    let off = g.len();
    let g0 = append_text(g, off, text, Style::Quotation);
    lemma_append_keeps(g, off, text, Style::Quotation, n);
    let sorted = sorted_by_cols(anns);
    let g1 = draw_underlines(g0, off, sorted, old_school);
    lemma_underlines_keep(g0, off, sorted, old_school, n);
    lemma_keeps_trans(g, g0, g1, n);
    let labeled = labeled_of(sorted);
    if !(old_school || labeled.len() == 0) {
        if trailing_fits(labeled, unlabeled_of(sorted)) {
            let last = labeled.last();
            let g2 = append_text(g1, off + 1, seq![' '] + label_text(last), label_style(last));
            lemma_append_keeps(g1, off + 1, seq![' '] + label_text(last), label_style(last), n);
            lemma_keeps_trans(g, g1, g2, n);
            lemma_stacked_keeps(g2, off, labeled.drop_last(), (labeled.len() - 1) as nat, n);
            lemma_keeps_trans(g, g2, draw_stacked(g2, off, labeled.drop_last(), (labeled.len() - 1) as nat), n);
        } else {
            lemma_stacked_keeps(g1, off, labeled, labeled.len(), n);
            lemma_keeps_trans(g, g1, draw_stacked(g1, off, labeled, labeled.len()), n);
        }
    }
}

/// A labeled annotation alone on its line: its label follows the underline on
/// the same row, and no connector row is drawn.
pub proof fn lemma_lone_label_trails(g: Seq<Seq<(char, Style)>>, off: nat, a: Annotation)
    requires
        a.label.is_some(),
    ensures
        trailing_fits(labeled_of(sorted_by_cols(seq![a])), unlabeled_of(sorted_by_cols(seq![a]))),
        layout(g, off, seq![a], false) == append_text(
            draw_underlines(g, off, seq![a], false),
            off + 1,
            seq![' '] + label_text(a),
            label_style(a),
        ),
{
    let s = seq![a];
    assert(s.drop_last() =~= Seq::<Annotation>::empty());
    assert(s.last() == a);
    assert(sorted_by_cols(Seq::<Annotation>::empty()) == Seq::<Annotation>::empty());
    assert(insert_after_equals(Seq::<Annotation>::empty(), a) == s);
    assert(sorted_by_cols(s) =~= s);
    assert(labeled_of(Seq::<Annotation>::empty()) == Seq::<Annotation>::empty());
    assert(labeled_of(s) =~= s);
    assert(unlabeled_of(Seq::<Annotation>::empty()) == Seq::<Annotation>::empty());
    assert(unlabeled_of(s) == unlabeled_of(s.drop_last()));
    assert(unlabeled_of(s) =~= Seq::<Annotation>::empty());
    assert(labeled_of(s).drop_last() =~= Seq::<Annotation>::empty());
}

/// Two labeled annotations, the later of which starts within the earlier: no
/// label follows the underline, and the two labels hang on distinct rows, the
/// earlier four rows below the source row and the later three.
pub proof fn lemma_overlapping_labels_hang(
    g: Seq<Seq<(char, Style)>>,
    off: nat,
    a: Annotation,
    b: Annotation,
)
    requires
        a.label.is_some(),
        b.label.is_some(),
        col_le(a, b),
        spans_overlap(a, b),
    ensures
        !trailing_fits(
            labeled_of(sorted_by_cols(seq![a, b])),
            unlabeled_of(sorted_by_cols(seq![a, b])),
        ),
        layout(g, off, seq![a, b], false) == draw_hanging(
            draw_hanging(draw_underlines(g, off, seq![a, b], false), off, a, 4),
            off,
            b,
            3,
        ),
{
    let s = seq![a, b];
    assert(is_col_sorted(s));
    lemma_sort_of_sorted(s);
    assert(s.drop_last() =~= seq![a]);
    assert(seq![a].drop_last() =~= Seq::<Annotation>::empty());
    assert(seq![a].last() == a);
    assert(labeled_of(Seq::<Annotation>::empty()) == Seq::<Annotation>::empty());
    assert(labeled_of(seq![a]) =~= seq![a]);
    assert(s.last() == b);
    assert(labeled_of(s) =~= s);
    let labeled = labeled_of(s);
    assert(labeled[0] == a);
    assert(!trailing_fits(labeled, unlabeled_of(s)));
    assert(hanging_depth(2, 1) == 3);
    assert(hanging_depth(2, 0) == 4);
    let g1 = draw_underlines(g, off, s, false);
    assert(draw_stacked(g1, off, s, 0) == g1);
    assert(draw_stacked(g1, off, s, 1) == draw_hanging(g1, off, a, 4));
    assert(draw_stacked(g1, off, s, 2) == draw_hanging(draw_hanging(g1, off, a, 4), off, b, 3));
}

} // verus!
