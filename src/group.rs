use vstd::prelude::*;
use crate::annotation::Annotation;
use crate::buffer::chars_of;

verus! {

/// One annotation together with the source line it belongs to.
pub struct PlacedAnnotation {
    /// Name of the file that holds the line.
    pub file: String,
    /// Line number within the file, counted from 0.
    pub line_index: usize,
    /// Text of the line.
    pub text: String,
    pub annotation: Annotation,
}

/// A source line with every annotation that lands on it.
pub struct Line {
    pub file: String,
    pub line_index: usize,
    pub text: String,
    pub annotations: Vec<Annotation>,
}

/// `a` comes before `b` in the order of characters, compared one by one.
pub open spec fn name_lt(a: Seq<char>, b: Seq<char>) -> bool
    decreases a.len(),
{
    if a.len() == 0 {
        b.len() > 0
    } else if b.len() == 0 {
        false
    } else if a[0] != b[0] {
        a[0] < b[0]
    } else {
        name_lt(a.drop_first(), b.drop_first())
    }
}

/// Lines are ordered by file name, then by line number.
pub open spec fn place_lt(f1: Seq<char>, l1: nat, f2: Seq<char>, l2: nat) -> bool {
    name_lt(f1, f2) || (f1 == f2 && l1 < l2)
}

/// The annotations of `entries` that land on line `line` of file `file`, in order.
pub open spec fn annotations_at(entries: Seq<PlacedAnnotation>, file: Seq<char>, line: nat) -> Seq<
    Annotation,
>
    decreases entries.len(),
{
    if entries.len() == 0 {
        Seq::empty()
    } else {
        let e = entries.last();
        let rest = annotations_at(entries.drop_last(), file, line);
        if e.file@ == file && e.line_index == line {
            rest.push(e.annotation)
        } else {
            rest
        }
    }
}

/// The lines are ascending by file name, then line number.
#[verifier::opaque]
pub open spec fn lines_ascending(lines: Seq<Line>) -> bool {
    forall|i: int, j: int|
        0 <= i < j < lines.len() ==> place_lt(
            #[trigger] lines[i].file@,
            lines[i].line_index as nat,
            #[trigger] lines[j].file@,
            lines[j].line_index as nat,
        )
}

/// Each line holds the annotations of `entries` that land on it, in order.
#[verifier::opaque]
pub open spec fn lines_hold(entries: Seq<PlacedAnnotation>, lines: Seq<Line>) -> bool {
    forall|i: int|
        0 <= i < lines.len() ==> (#[trigger] lines[i]).annotations@ == annotations_at(
            entries,
            lines[i].file@,
            lines[i].line_index as nat,
        )
}

/// Some line stands at line `line` of file `file`.
pub open spec fn has_place(lines: Seq<Line>, file: Seq<char>, line: nat) -> bool {
    exists|i: int| 0 <= i < lines.len() && lines[i].file@ == file && lines[i].line_index == line
}

/// Some entry lands on line `line` of file `file` and has the text `text`.
pub open spec fn has_entry(entries: Seq<PlacedAnnotation>, file: Seq<char>, line: nat, text: Seq<char>) -> bool {
    exists|k: int|
        0 <= k < entries.len() && entries[k].file@ == file && entries[k].line_index == line
            && entries[k].text@ == text
}

/// Each line is the place of some entry, and has that entry's text.
#[verifier::opaque]
pub open spec fn lines_named(entries: Seq<PlacedAnnotation>, lines: Seq<Line>) -> bool {
    forall|i: int|
        0 <= i < lines.len() ==> has_entry(
            entries,
            (#[trigger] lines[i]).file@,
            lines[i].line_index as nat,
            lines[i].text@,
        )
}

/// The place of each entry is one of the lines.
#[verifier::opaque]
pub open spec fn lines_cover(entries: Seq<PlacedAnnotation>, lines: Seq<Line>) -> bool {
    forall|k: int|
        #![trigger entries[k]] 0 <= k < entries.len() ==> has_place(lines, entries[k].file@, entries[k].line_index as nat)
}

/// `lines` groups `entries` by file and line: ascending, one line for each
/// place that some entry names, holding that place's annotations in order and
/// the text of an entry there.
pub open spec fn groups(entries: Seq<PlacedAnnotation>, lines: Seq<Line>) -> bool {
    &&& lines_ascending(lines)
    &&& lines_hold(entries, lines)
    &&& lines_named(entries, lines)
    &&& lines_cover(entries, lines)
}

proof fn lemma_name_lt_irreflexive(a: Seq<char>)
    ensures
        !name_lt(a, a),
    decreases a.len(),
{
    if a.len() > 0 {
        lemma_name_lt_irreflexive(a.drop_first());
    }
}

proof fn lemma_name_lt_transitive(a: Seq<char>, b: Seq<char>, c: Seq<char>)
    requires
        name_lt(a, b),
        name_lt(b, c),
    ensures
        name_lt(a, c),
    decreases a.len(),
{
    if a.len() > 0 && b.len() > 0 && c.len() > 0 && a[0] == b[0] && b[0] == c[0] {
        lemma_name_lt_transitive(a.drop_first(), b.drop_first(), c.drop_first());
    }
}

proof fn lemma_name_lt_total(a: Seq<char>, b: Seq<char>)
    requires
        a != b,
        !name_lt(a, b),
    ensures
        name_lt(b, a),
    decreases a.len(),
{
    if a.len() > 0 && b.len() > 0 && a[0] == b[0] {
        if a.drop_first() == b.drop_first() {
            assert(a =~= seq![a[0]] + a.drop_first());
            assert(b =~= seq![b[0]] + b.drop_first());
        }
        lemma_name_lt_total(a.drop_first(), b.drop_first());
    } else if a.len() == 0 && b.len() == 0 {
        assert(a =~= b);
    }
}

proof fn lemma_place_lt_transitive(f1: Seq<char>, l1: nat, f2: Seq<char>, l2: nat, f3: Seq<char>, l3: nat)
    requires
        place_lt(f1, l1, f2, l2),
        place_lt(f2, l2, f3, l3),
    ensures
        place_lt(f1, l1, f3, l3),
{
    if name_lt(f1, f2) && name_lt(f2, f3) {
        lemma_name_lt_transitive(f1, f2, f3);
    }
}

/// Whether `a` comes before `b` in the order of characters.
pub fn name_before(a: &str, b: &str) -> (r: bool)
    ensures
        r == name_lt(a@, b@),
{
    let x = chars_of(a);
    let y = chars_of(b);
    let mut i: usize = 0;
    assert(x@.subrange(0, x@.len() as int) =~= x@);
    assert(y@.subrange(0, y@.len() as int) =~= y@);
    while i < x.len() && i < y.len() && x[i] == y[i]
        invariant
            x@ == a@,
            y@ == b@,
            i <= x@.len(),
            i <= y@.len(),
            name_lt(a@, b@) == name_lt(x@.subrange(i as int, x@.len() as int), y@.subrange(i as int, y@.len() as int)),
        decreases x.len() - i,
    {
        proof {
            let xs = x@.subrange(i as int, x@.len() as int);
            let ys = y@.subrange(i as int, y@.len() as int);
            assert(xs.drop_first() =~= x@.subrange(i + 1, x@.len() as int));
            assert(ys.drop_first() =~= y@.subrange(i + 1, y@.len() as int));
        }
        i = i + 1;
    }
    proof {
        let xs = x@.subrange(i as int, x@.len() as int);
        let ys = y@.subrange(i as int, y@.len() as int);
        assert(i < x@.len() ==> xs[0] == x@[i as int]);
        assert(i < y@.len() ==> ys[0] == y@[i as int]);
    }
    if i == x.len() {
        i < y.len()
    } else if i == y.len() {
        false
    } else {
        x[i] < y[i]
    }
}

/// Gathers the annotations by file and line: files in the order of their
/// names, lines ascending within a file, and on each line the annotations in
/// the order given.
pub fn group_lines(entries: &Vec<PlacedAnnotation>) -> (r: Vec<Line>)
    ensures
        groups(entries@, r@),
{
    let mut lines: Vec<Line> = Vec::new();
    proof {
        reveal(lines_ascending);
        reveal(lines_hold);
        reveal(lines_named);
        reveal(lines_cover);
    }
    let mut n: usize = 0;
    while n < entries.len()
        invariant
            n <= entries@.len(),
            groups(entries@.subrange(0, n as int), lines@),
        decreases entries.len() - n,
    {
        let ghost old_entries = entries@.subrange(0, n as int);
        let e = &entries[n];
        proof {
            assert(entries@.subrange(0, n + 1) =~= old_entries.push(*e));
        }
        let mut p: usize = 0;
        while p < lines.len() && (name_before(lines[p].file.as_str(), e.file.as_str()) || (
        lines[p].file == e.file && lines[p].line_index < e.line_index))
            invariant
                p <= lines@.len(),
                forall|k: int|
                    0 <= k < p ==> place_lt(
                        #[trigger] lines@[k].file@,
                        lines@[k].line_index as nat,
                        e.file@,
                        e.line_index as nat,
                    ),
            decreases lines.len() - p,
        {
            p = p + 1;
        }
        let ann = e.annotation.duplicate();
        let ghost before = lines@;
        if p < lines.len() && lines[p].file == e.file && lines[p].line_index == e.line_index {
            let mut line = lines.remove(p);
            line.annotations.push(ann);
            let ghost changed = line;
            lines.insert(p, line);
            proof {
                assert(lines@ =~= before.update(p as int, changed));
                lemma_merge_keeps_groups(old_entries, *e, before, p as int, changed);
            }
        } else {
            let mut anns: Vec<Annotation> = Vec::new();
            anns.push(ann);
            let line = Line {
                file: e.file.clone(),
                line_index: e.line_index,
                text: e.text.clone(),
                annotations: anns,
            };
            let ghost added = line;
            proof {
                lemma_new_place(before, *e, p as int);
                assert(anns@ =~= seq![e.annotation]);
            }
            lines.insert(p, line);
            proof {
                assert(lines@ =~= before.insert(p as int, added));
                lemma_insert_keeps_groups(old_entries, *e, before, p as int, added);
            }
        }
        n = n + 1;
    }
    assert(entries@.subrange(0, n as int) =~= entries@);
    lines
}

proof fn lemma_at_push(entries: Seq<PlacedAnnotation>, e: PlacedAnnotation, file: Seq<char>, line: nat)
    ensures
        annotations_at(entries.push(e), file, line) == if e.file@ == file && e.line_index == line {
            annotations_at(entries, file, line).push(e.annotation)
        } else {
            annotations_at(entries, file, line)
        },
{
    assert(entries.push(e).drop_last() =~= entries);
}

proof fn lemma_place_lt_irreflexive(f: Seq<char>, l: nat)
    ensures
        !place_lt(f, l, f, l),
{
    lemma_name_lt_irreflexive(f);
}

/// Where the scan stopped at `p` without finding `e`'s place, no line has it,
/// and `e`'s place comes before every line from `p` on.
proof fn lemma_new_place(before: Seq<Line>, e: PlacedAnnotation, p: int)
    requires
        lines_ascending(before),
        0 <= p <= before.len(),
        forall|k: int|
            0 <= k < p ==> place_lt(
                #[trigger] before[k].file@,
                before[k].line_index as nat,
                e.file@,
                e.line_index as nat,
            ),
        p < before.len() ==> !place_lt(
            before[p].file@,
            before[p].line_index as nat,
            e.file@,
            e.line_index as nat,
        ),
        p < before.len() ==> !(before[p].file@ == e.file@ && before[p].line_index == e.line_index),
    ensures
        forall|i: int|
            0 <= i < before.len() ==> !(#[trigger] before[i].file@ == e.file@ && before[i].line_index
                == e.line_index),
        forall|i: int|
            p <= i < before.len() ==> place_lt(
                e.file@,
                e.line_index as nat,
                #[trigger] before[i].file@,
                before[i].line_index as nat,
            ),
{
    reveal(lines_ascending);
    lemma_place_lt_irreflexive(e.file@, e.line_index as nat);
    if p < before.len() {
        if before[p].file@ != e.file@ {
            lemma_name_lt_total(before[p].file@, e.file@);
        }
        assert(place_lt(e.file@, e.line_index as nat, before[p].file@, before[p].line_index as nat));
    }
    assert forall|i: int| p <= i < before.len() implies place_lt(
        e.file@,
        e.line_index as nat,
        #[trigger] before[i].file@,
        before[i].line_index as nat,
    ) by {
        if i > p {
            assert(place_lt(before[p].file@, before[p].line_index as nat, before[i].file@, before[i].line_index as nat));
            lemma_place_lt_transitive(
                e.file@,
                e.line_index as nat,
                before[p].file@,
                before[p].line_index as nat,
                before[i].file@,
                before[i].line_index as nat,
            );
        }
    }
    assert forall|i: int| 0 <= i < before.len() implies !(#[trigger] before[i].file@ == e.file@
        && before[i].line_index == e.line_index) by {
        if i < p {
            assert(place_lt(before[i].file@, before[i].line_index as nat, e.file@, e.line_index as nat));
        } else {
            assert(place_lt(e.file@, e.line_index as nat, before[i].file@, before[i].line_index as nat));
        }
    }
}

proof fn lemma_merge_keeps_groups(
    entries: Seq<PlacedAnnotation>,
    e: PlacedAnnotation,
    before: Seq<Line>,
    p: int,
    changed: Line,
)
    requires
        groups(entries, before),
        0 <= p < before.len(),
        before[p].file@ == e.file@,
        before[p].line_index == e.line_index,
        changed.file == before[p].file,
        changed.line_index == before[p].line_index,
        changed.text == before[p].text,
        changed.annotations@ == before[p].annotations@.push(e.annotation),
    ensures
        groups(entries.push(e), before.update(p, changed)),
{
    let new_entries = entries.push(e);
    let lines = before.update(p, changed);
    assert forall|i: int| 0 <= i < lines.len() implies #[trigger] lines[i].file@ == before[i].file@
        && lines[i].line_index == before[i].line_index && lines[i].text@ == before[i].text@ by {}
    assert(lines_ascending(lines)) by {
        reveal(lines_ascending);
        assert forall|i: int, j: int| 0 <= i < j < lines.len() implies place_lt(
            #[trigger] lines[i].file@,
            lines[i].line_index as nat,
            #[trigger] lines[j].file@,
            lines[j].line_index as nat,
        ) by {
            assert(place_lt(before[i].file@, before[i].line_index as nat, before[j].file@, before[j].line_index as nat));
        }
    }
    assert(lines_hold(new_entries, lines)) by {
        reveal(lines_hold);
        reveal(lines_ascending);
        assert forall|i: int| 0 <= i < lines.len() implies (#[trigger] lines[i]).annotations@
            == annotations_at(new_entries, lines[i].file@, lines[i].line_index as nat) by {
            lemma_at_push(entries, e, lines[i].file@, lines[i].line_index as nat);
            assert(before[i].annotations@ == annotations_at(entries, before[i].file@, before[i].line_index as nat));
            if i != p {
                lemma_place_lt_irreflexive(e.file@, e.line_index as nat);
                if i < p {
                    assert(place_lt(before[i].file@, before[i].line_index as nat, before[p].file@, before[p].line_index as nat));
                } else {
                    assert(place_lt(before[p].file@, before[p].line_index as nat, before[i].file@, before[i].line_index as nat));
                }
            }
        }
    }
    assert(lines_named(new_entries, lines)) by {
        reveal(lines_named);
        assert forall|i: int| 0 <= i < lines.len() implies has_entry(
            new_entries,
            (#[trigger] lines[i]).file@,
            lines[i].line_index as nat,
            lines[i].text@,
        ) by {
            assert(has_entry(entries, before[i].file@, before[i].line_index as nat, before[i].text@));
            let k = choose|k: int|
                0 <= k < entries.len() && entries[k].file@ == before[i].file@ && entries[k].line_index
                    == before[i].line_index && entries[k].text@ == before[i].text@;
            assert(new_entries[k] == entries[k]);
            assert(lines[i].file@ == before[i].file@ && lines[i].text@ == before[i].text@);
        }
    }
    assert(lines_cover(new_entries, lines)) by {
        reveal(lines_cover);
        assert forall|k: int| #![trigger new_entries[k]] 0 <= k < new_entries.len() implies has_place(lines, new_entries[k].file@, new_entries[k].line_index as nat) by {
            if k < entries.len() {
                assert(new_entries[k] == entries[k]);
                let i = choose|i: int|
                    0 <= i < before.len() && entries[k].file@ == before[i].file@
                        && entries[k].line_index == before[i].line_index;
                assert(lines[i].file@ == before[i].file@);
            } else {
                assert(lines[p].file@ == before[p].file@);
            }
        }
    }
}

proof fn lemma_insert_keeps_groups(
    entries: Seq<PlacedAnnotation>,
    e: PlacedAnnotation,
    before: Seq<Line>,
    p: int,
    added: Line,
)
    requires
        groups(entries, before),
        0 <= p <= before.len(),
        forall|k: int|
            0 <= k < p ==> place_lt(
                #[trigger] before[k].file@,
                before[k].line_index as nat,
                e.file@,
                e.line_index as nat,
            ),
        forall|i: int|
            p <= i < before.len() ==> place_lt(
                e.file@,
                e.line_index as nat,
                #[trigger] before[i].file@,
                before[i].line_index as nat,
            ),
        forall|i: int|
            0 <= i < before.len() ==> !(#[trigger] before[i].file@ == e.file@ && before[i].line_index
                == e.line_index),
        added.file@ == e.file@,
        added.line_index == e.line_index,
        added.text@ == e.text@,
        added.annotations@ == seq![e.annotation],
    ensures
        groups(entries.push(e), before.insert(p, added)),
{
    let new_entries = entries.push(e);
    let lines = before.insert(p, added);
    assert forall|i: int| 0 <= i < lines.len() && i != p implies #[trigger] lines[i] == before[if i
        < p {
        i
    } else {
        i - 1
    }] by {}
    assert(lines_ascending(lines)) by {
        reveal(lines_ascending);
        assert forall|i: int, j: int| 0 <= i < j < lines.len() implies place_lt(
            #[trigger] lines[i].file@,
            lines[i].line_index as nat,
            #[trigger] lines[j].file@,
            lines[j].line_index as nat,
        ) by {
            let bi = if i < p { i } else { i - 1 };
            let bj = if j < p { j } else { j - 1 };
            if i != p && j != p {
                assert(lines[i] == before[bi] && lines[j] == before[bj]);
                assert(place_lt(before[bi].file@, before[bi].line_index as nat, before[bj].file@, before[bj].line_index as nat));
            } else if i == p {
                assert(lines[j] == before[bj]);
            } else {
                assert(lines[i] == before[bi]);
            }
        }
    }
    assert(lines_hold(new_entries, lines)) by {
        reveal(lines_hold);
        assert forall|i: int| 0 <= i < lines.len() implies (#[trigger] lines[i]).annotations@
            == annotations_at(new_entries, lines[i].file@, lines[i].line_index as nat) by {
            lemma_at_push(entries, e, lines[i].file@, lines[i].line_index as nat);
            if i == p {
                lemma_absent(entries, e.file@, e.line_index as nat, before);
                assert(seq![e.annotation] =~= Seq::<Annotation>::empty().push(e.annotation));
            } else {
                let bi = if i < p { i } else { i - 1 };
                assert(lines[i] == before[bi]);
                assert(before[bi].annotations@ == annotations_at(entries, before[bi].file@, before[bi].line_index as nat));
            }
        }
    }
    assert(lines_named(new_entries, lines)) by {
        reveal(lines_named);
        assert forall|i: int| 0 <= i < lines.len() implies has_entry(
            new_entries,
            (#[trigger] lines[i]).file@,
            lines[i].line_index as nat,
            lines[i].text@,
        ) by {
            if i == p {
                assert(new_entries[entries.len() as int] == e);
            } else {
                let bi = if i < p { i } else { i - 1 };
                assert(lines[i] == before[bi]);
                assert(has_entry(entries, before[bi].file@, before[bi].line_index as nat, before[bi].text@));
                let k = choose|k: int|
                    0 <= k < entries.len() && entries[k].file@ == before[bi].file@
                        && entries[k].line_index == before[bi].line_index && entries[k].text@
                        == before[bi].text@;
                assert(new_entries[k] == entries[k]);
            }
        }
    }
    assert(lines_cover(new_entries, lines)) by {
        reveal(lines_cover);
        assert forall|k: int| #![trigger new_entries[k]] 0 <= k < new_entries.len() implies has_place(lines, new_entries[k].file@, new_entries[k].line_index as nat) by {
            if k < entries.len() {
                assert(new_entries[k] == entries[k]);
                let i = choose|i: int|
                    0 <= i < before.len() && entries[k].file@ == before[i].file@
                        && entries[k].line_index == before[i].line_index;
                if i < p {
                    assert(lines[i] == before[i]);
                } else {
                    assert(lines[i + 1] == before[i]);
                }
            } else {
                assert(lines[p] == added);
            }
        }
    }
}

/// No entry lands on a place that no line has.
proof fn lemma_absent(entries: Seq<PlacedAnnotation>, file: Seq<char>, line: nat, lines: Seq<Line>)
    requires
        lines_cover(entries, lines),
        forall|i: int|
            0 <= i < lines.len() ==> !(#[trigger] lines[i].file@ == file && lines[i].line_index == line),
    ensures
        annotations_at(entries, file, line) == Seq::<Annotation>::empty(),
{
    reveal(lines_cover);
    lemma_absent_from(entries, file, line, lines);
}

proof fn lemma_absent_from(entries: Seq<PlacedAnnotation>, file: Seq<char>, line: nat, lines: Seq<Line>)
    requires
        forall|k: int|
            #![trigger entries[k]]
            0 <= k < entries.len() ==> has_place(lines, entries[k].file@, entries[k].line_index as nat),
        forall|i: int|
            0 <= i < lines.len() ==> !(#[trigger] lines[i].file@ == file && lines[i].line_index == line),
    ensures
        annotations_at(entries, file, line) == Seq::<Annotation>::empty(),
    decreases entries.len(),
{
    if entries.len() > 0 {
        let d = entries.drop_last();
        assert forall|k: int| #![trigger d[k]] 0 <= k < d.len() implies has_place(lines, d[k].file@, d[k].line_index as nat) by {
            assert(d[k] == entries[k]);
        }
        lemma_absent_from(d, file, line, lines);
        let k = entries.len() - 1;
        let i = choose|i: int|
            0 <= i < lines.len() && entries[k].file@ == lines[i].file@
                && entries[k].line_index == lines[i].line_index;
        assert(!(lines[i].file@ == file && lines[i].line_index == line));
    }
}

} // verus!
