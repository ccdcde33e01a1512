use vstd::prelude::*;
use std::rc::Rc;
use codemap::{CodeMap, Span};
use crate::annotation::{Annotation, built_end};
use crate::buffer::{
    StyledBuffer,
    StyledString,
    append_text,
    renders,
    run_cells,
    with_rows,
    keeps_rows,
    lemma_append_keeps,
    lemma_keeps_trans,
    lemma_put_text_extends,
    lemma_put_text_same_rows,
};
use crate::group::{Line, PlacedAnnotation, group_lines, groups};
use crate::layout::{render_source_line, source_line_layout, lemma_source_line_keeps};
use crate::style::{Level, Style, level_word};

verus! {

#[verifier::external_type_specification]
#[verifier::external_body]
pub struct ExCodeMap(CodeMap);

#[verifier::external_type_specification]
#[verifier::external_body]
pub struct ExSpan(Span);

/// Where a span lies, as the position-lookup service reports it.
pub struct SpanPlace {
    /// Name of the file that holds the span.
    pub file: String,
    /// Line and column (in characters, from 0) where the span starts.
    pub start_line: usize,
    pub start_col: usize,
    /// Line and column (in characters, from 0) where the span ends.
    pub end_line: usize,
    pub end_col: usize,
    /// Text of the line where the span starts, without its line terminator.
    pub text: String,
    /// The span's location written out as `file:line:column`.
    pub position: String,
}

/// Whether codemap's `CodeMap::look_up_span` returns for `span` on `cm`: a
/// file of the map holds the span's start, its end lies in that same file, and
/// both ends fall on character boundaries of the file's text. Otherwise
/// `look_up_span` panics. codemap offers no call that tests this beforehand.
pub uninterp spec fn resolves(cm: CodeMap, span: Span) -> bool;

/// The decimal digit for `d` below ten.
pub open spec fn digit(d: nat) -> char {
    if d == 0 { '0' } else if d == 1 { '1' } else if d == 2 { '2' } else if d == 3 { '3' }
    else if d == 4 { '4' } else if d == 5 { '5' } else if d == 6 { '6' } else if d == 7 { '7' }
    else if d == 8 { '8' } else { '9' }
}

/// `n` written in decimal, without leading zeros.
pub open spec fn decimal(n: nat) -> Seq<char>
    decreases n,
{
    if n < 10 {
        seq![digit(n)]
    } else {
        decimal(n / 10).push(digit(n % 10))
    }
}

/// A span's location written out: `file:line:column` of its start, counted
/// from 1, followed by `: line:column` of its end where the end differs.
pub open spec fn position_text(file: Seq<char>, start_line: nat, start_col: nat, end_line: nat, end_col: nat) -> Seq<char> {
    let start = file + seq![':'] + decimal(start_line + 1) + seq![':'] + decimal(start_col + 1);
    if start_line == end_line && start_col == end_col {
        start
    } else {
        start + seq![':', ' '] + decimal(end_line + 1) + seq![':'] + decimal(end_col + 1)
    }
}

/// The place of a well-formed location text.
pub open spec fn place_ok(p: SpanPlace) -> bool {
    p.position@ == position_text(p.file@, p.start_line as nat, p.start_col as nat, p.end_line as nat, p.end_col as nat)
}

/// Resolves a span through the position-lookup service. Relies on codemap's
/// `CodeMap::look_up_span` for the file and the line and column (characters,
/// from 0) of both ends, which it returns only for a span that `resolves`; on
/// `File::name`; on `File::source_line` for the start line, which
/// `look_up_span` always reports within the file; and on `Display for
/// SpanLoc`, which writes the location as `position_text` says.
#[verifier::external_body]
fn look_up(cm: &CodeMap, span: Span) -> (r: SpanPlace)
    requires
        resolves(*cm, span),
    ensures
        resolves(*cm, span) ==> place_ok(r),
{
    let loc = cm.look_up_span(span);
    SpanPlace {
        file: loc.file.name().to_string(),
        start_line: loc.begin.line,
        start_col: loc.begin.column,
        end_line: loc.end.line,
        end_col: loc.end.column,
        text: loc.file.source_line(loc.begin.line).to_string(),
        position: loc.to_string(),
    }
}

/// Relies on codemap's derived `PartialEq for Span`: equal exactly when both
/// ends are.
#[verifier::external_body]
fn same_span(a: &Span, b: &Span) -> (r: bool)
    ensures
        r == (*a == *b),
{
    *a == *b
}

/// A span to show, whether it is the diagnostic's main one, and its label.
pub struct SpanLabel {
    pub span: Span,
    pub is_primary: bool,
    pub label: Option<String>,
}

/// The annotation that a label's resolved place gives, on the line where the place starts.
pub open spec fn placed(place: SpanPlace, is_primary: bool, label: Option<String>) -> PlacedAnnotation {
    PlacedAnnotation {
        file: place.file,
        line_index: place.start_line,
        text: place.text,
        annotation: Annotation {
            start_col: place.start_col,
            end_col: built_end(
                place.start_line as nat,
                place.start_col as nat,
                place.end_line as nat,
                place.end_col as nat,
            ) as usize,
            is_primary,
            is_minimized: place.start_line != place.end_line,
            label,
        },
    }
}

/// Builds the annotation for a label whose span resolved to `place`.
pub fn place_label(place: SpanPlace, is_primary: bool, label: Option<String>) -> (r: PlacedAnnotation)
    requires
        place.start_col < usize::MAX,
    ensures
        r == placed(place, is_primary, label),
{
    let annotation = Annotation::from_position(
        place.start_line,
        place.start_col,
        place.end_line,
        place.end_col,
        is_primary,
        label,
    );
    PlacedAnnotation {
        file: place.file,
        line_index: place.start_line,
        text: place.text,
        annotation,
    }
}

/// The grid after the two header rows: `level: message`, then the position.
pub open spec fn header_grid(level: Level, msg: Seq<char>, position: Seq<char>) -> Seq<Seq<(char, Style)>> {
    let g0 = append_text(Seq::empty(), 0, level_word(level), Style::Level(level));
    let g1 = append_text(g0, 0, seq![':', ' '], Style::HeaderMsg);
    let g2 = append_text(g1, 0, msg, Style::HeaderMsg);
    append_text(g2, 1, position, Style::LineAndColumn)
}

/// The grid after the lines are added in order, each with its annotations laid out.
pub open spec fn lines_grid(g: Seq<Seq<(char, Style)>>, lines: Seq<Line>, old_school: bool) -> Seq<
    Seq<(char, Style)>,
>
    decreases lines.len(),
{
    if lines.len() == 0 {
        g
    } else {
        let l = lines.last();
        source_line_layout(lines_grid(g, lines.drop_last(), old_school), l.text@, l.annotations@, old_school)
    }
}

/// The whole grid of a diagnostic.
pub open spec fn report_grid(
    level: Level,
    msg: Seq<char>,
    position: Seq<char>,
    lines: Seq<Line>,
    old_school: bool,
) -> Seq<Seq<(char, Style)>> {
    lines_grid(header_grid(level, msg, position), lines, old_school)
}

/// The cells of the first header row: the level's word, `: `, and the message.
pub open spec fn title_cells(level: Level, msg: Seq<char>) -> Seq<(char, Style)> {
    run_cells(level_word(level), Style::Level(level)) + run_cells(seq![':', ' '], Style::HeaderMsg)
        + run_cells(msg, Style::HeaderMsg)
}

proof fn lemma_level_word_short(level: Level)
    ensures
        level_word(level).len() <= 30,
{
    reveal_strlit("error: internal compiler error");
    reveal_strlit("error");
    reveal_strlit("warning");
    reveal_strlit("note");
    reveal_strlit("help");
}

proof fn lemma_lines_grid_keeps(g: Seq<Seq<(char, Style)>>, lines: Seq<Line>, old_school: bool, n: nat)
    requires
        n <= g.len(),
    ensures
        keeps_rows(g, lines_grid(g, lines, old_school), n),
    decreases lines.len(),
{
    if lines.len() > 0 {
        let l = lines.last();
        let g1 = lines_grid(g, lines.drop_last(), old_school);
        lemma_lines_grid_keeps(g, lines.drop_last(), old_school, n);
        lemma_source_line_keeps(g1, l.text@, l.annotations@, old_school, n);
        lemma_keeps_trans(g, g1, lines_grid(g, lines, old_school), n);
    }
}

/// Whatever the lines, the grid has its two header rows: the first is the
/// level's word, `: ` and the message, and the second the position, each where
/// it fits in a grid row. Without lines these are the only rows.
pub proof fn lemma_report_header(
    level: Level,
    msg: Seq<char>,
    position: Seq<char>,
    lines: Seq<Line>,
    old_school: bool,
)
    ensures
        report_grid(level, msg, position, lines, old_school).len() >= 2,
        msg.len() + 32 <= usize::MAX ==> report_grid(level, msg, position, lines, old_school)[0]
            == title_cells(level, msg),
        position.len() < usize::MAX ==> report_grid(level, msg, position, lines, old_school)[1]
            == run_cells(position, Style::LineAndColumn),
        lines.len() == 0 ==> report_grid(level, msg, position, lines, old_school).len() == 2,
{
    let e = Seq::<Seq<(char, Style)>>::empty();
    let w = level_word(level);
    let g0 = append_text(e, 0, w, Style::Level(level));
    let g1 = append_text(g0, 0, seq![':', ' '], Style::HeaderMsg);
    let g2 = append_text(g1, 0, msg, Style::HeaderMsg);
    let h = append_text(g2, 1, position, Style::LineAndColumn);
    lemma_level_word_short(level);
    let one = with_rows(e, 1);
    assert(one =~= seq![Seq::<(char, Style)>::empty()]);
    lemma_put_text_extends(one, 0, w, Style::Level(level));
    assert(g0 =~= seq![run_cells(w, Style::Level(level))]);
    assert(with_rows(g0, 1) == g0);
    lemma_put_text_extends(g0, 0, seq![':', ' '], Style::HeaderMsg);
    let r1 = run_cells(w, Style::Level(level)) + run_cells(seq![':', ' '], Style::HeaderMsg);
    assert(g1 =~= seq![r1]);
    assert(with_rows(g1, 1) == g1);
    if msg.len() + 32 <= usize::MAX {
        lemma_put_text_extends(g1, 0, msg, Style::HeaderMsg);
        assert(g2 =~= seq![title_cells(level, msg)]);
    }
    crate::buffer::lemma_append_grows(g1, 0, msg, Style::HeaderMsg);
    lemma_append_keeps(g2, 1, position, Style::LineAndColumn, 1);
    assert(h.len() >= 2) by {
        crate::buffer::lemma_append_grows(g2, 1, position, Style::LineAndColumn);
    }
    lemma_lines_grid_keeps(h, lines, old_school, 2);
    assert(h[0] == g2[0]);
    let w2 = with_rows(g2, 2);
    assert(g2.len() == 1) by {
        lemma_put_text_same_rows(with_rows(e, 1), 0, 0, w, Style::Level(level));
        lemma_put_text_same_rows(with_rows(g0, 1), 0, with_rows(g0, 1)[0].len(), seq![':', ' '], Style::HeaderMsg);
        lemma_put_text_same_rows(with_rows(g1, 1), 0, with_rows(g1, 1)[0].len(), msg, Style::HeaderMsg);
    }
    assert(w2.len() == 2 && w2[1].len() == 0);
    lemma_put_text_same_rows(w2, 1, 0, position, Style::LineAndColumn);
    if position.len() < usize::MAX {
        lemma_put_text_extends(w2, 1, position, Style::LineAndColumn);
        assert(w2[1] + run_cells(position, Style::LineAndColumn) =~= run_cells(position, Style::LineAndColumn));
    }
    if lines.len() == 0 {
        assert(lines_grid(h, lines, old_school) == h);
    }
}

/// No line holds so many annotations that its rows could not be counted.
pub open spec fn lines_fit(lines: Seq<Line>) -> bool {
    forall|i: int| 0 <= i < lines.len() ==> (#[trigger] lines[i]).annotations@.len() + 3 < usize::MAX
}

fn check_lines_fit(lines: &Vec<Line>) -> (r: bool)
    ensures
        r == lines_fit(lines@),
{
    let mut i: usize = 0;
    while i < lines.len()
        invariant
            i <= lines@.len(),
            forall|k: int| 0 <= k < i ==> (#[trigger] lines@[k]).annotations@.len() + 3 < usize::MAX,
        decreases lines.len() - i,
    {
        if lines[i].annotations.len() >= usize::MAX - 3 {
            return false;
        }
        i = i + 1;
    }
    true
}

/// Renders a diagnostic whose places are resolved: the header rows, then each
/// line with its annotations, as styled rows.
pub fn render_resolved(
    level: Level,
    msg: &str,
    position: &str,
    lines: &Vec<Line>,
    old_school: bool,
) -> (r: Vec<Vec<StyledString>>)
    requires
        lines_fit(lines@),
    ensures
        r@.len() == report_grid(level, msg@, position@, lines@, old_school).len(),
        forall|i: int|
            0 <= i < r@.len() ==> renders(
                #[trigger] r@[i]@,
                report_grid(level, msg@, position@, lines@, old_school)[i],
            ),
{
    let mut buffer = StyledBuffer::new();
    let word = level.to_text();
    buffer.append(0, word.as_str(), Style::Level(level));
    let sep = ": ";
    proof {
        reveal_strlit(": ");
    }
    assert(sep@ =~= seq![':', ' ']);
    buffer.append(0, sep, Style::HeaderMsg);
    buffer.append(0, msg, Style::HeaderMsg);
    buffer.append(1, position, Style::LineAndColumn);
    let ghost h = buffer@;
    assert(h == header_grid(level, msg@, position@));
    let mut i: usize = 0;
    while i < lines.len()
        invariant
            i <= lines@.len(),
            lines_fit(lines@),
            buffer@ == lines_grid(h, lines@.subrange(0, i as int), old_school),
        decreases lines.len() - i,
    {
        proof {
            let t = lines@.subrange(0, i + 1);
            assert(t.drop_last() =~= lines@.subrange(0, i as int));
        }
        let line = &lines[i];
        assert(line.annotations@.len() + 3 < usize::MAX);
        render_source_line(&mut buffer, line.text.as_str(), &line.annotations, old_school);
        i = i + 1;
    }
    assert(lines@.subrange(0, i as int) =~= lines@);
    buffer.render()
}

/// The annotations that labels give, each at the place its span resolved to:
/// one for each label, but for a place whose start column lies beyond any grid
/// row.
pub open spec fn entries_of(places: Seq<SpanPlace>, labels: Seq<(Span, bool, Option<String>)>) -> Seq<
    PlacedAnnotation,
>
    decreases places.len(),
{
    if places.len() == 0 || places.len() != labels.len() {
        Seq::empty()
    } else {
        let rest = entries_of(places.drop_last(), labels.drop_last());
        let p = places.last();
        let l = labels.last();
        if p.start_col < usize::MAX {
            rest.push(placed(p, l.1, l.2))
        } else {
            rest
        }
    }
}

/// `rows` is the rendering of a diagnostic whose main span resolved to `head`
/// and whose labels resolved to `places`, grouped into `lines`. A set of lines
/// too large to count its rows is left out, leaving the header.
pub open spec fn rendered_from(
    rows: Seq<Vec<StyledString>>,
    level: Level,
    msg: Seq<char>,
    labels: Seq<(Span, bool, Option<String>)>,
    old_school: bool,
    places: Seq<SpanPlace>,
    head: SpanPlace,
    lines: Seq<Line>,
) -> bool {
    let shown = if lines_fit(lines) {
        lines
    } else {
        Seq::empty()
    };
    let g = report_grid(level, msg, head.position@, shown, old_school);
    &&& places.len() == labels.len()
    &&& place_ok(head)
    &&& forall|i: int| 0 <= i < places.len() ==> place_ok(#[trigger] places[i])
    &&& groups(entries_of(places, labels), lines)
    &&& rows.len() == g.len()
    &&& forall|i: int| 0 <= i < rows.len() ==> renders(#[trigger] rows[i]@, g[i])
}

/// A diagnostic being put together: its level, message and main span, and the
/// labelled spans to show.
pub struct ErrorReporter {
    level: Level,
    primary_span: Span,
    primary_msg: String,
    span_labels: Vec<SpanLabel>,
    cm: Rc<CodeMap>,
    /// Legacy caret mode: `^~~~` underlines and no labels.
    old_school: bool,
}

impl ErrorReporter {
    pub closed spec fn spec_level(&self) -> Level {
        self.level
    }

    pub closed spec fn spec_message(&self) -> Seq<char> {
        self.primary_msg@
    }

    pub closed spec fn spec_primary_span(&self) -> Span {
        self.primary_span
    }

    pub closed spec fn spec_old_school(&self) -> bool {
        self.old_school
    }

    /// The code map that resolves the reporter's spans.
    pub closed spec fn spec_code_map(&self) -> Rc<CodeMap> {
        self.cm
    }

    /// Every span of the reporter, the main one and each label's, resolves on its code map.
    pub open spec fn spans_resolve(&self) -> bool {
        &&& resolves(*self.spec_code_map(), self.spec_primary_span())
        &&& forall|i: int|
            0 <= i < self.spec_labels().len() ==> resolves(
                *self.spec_code_map(),
                (#[trigger] self.spec_labels()[i]).0,
            )
    }

    /// The labelled spans collected so far, as (span, is primary, label).
    pub closed spec fn spec_labels(&self) -> Seq<(Span, bool, Option<String>)> {
        self.span_labels@.map_values(|l: SpanLabel| (l.span, l.is_primary, l.label))
    }

    pub fn new(level: Level, msg: String, primary_span: Span, cm: Rc<CodeMap>) -> (r: ErrorReporter)
        ensures
            r.spec_level() == level,
            r.spec_message() == msg@,
            r.spec_primary_span() == primary_span,
            r.spec_labels() == Seq::<(Span, bool, Option<String>)>::empty(),
            !r.spec_old_school(),
            r.spec_code_map() == cm,
    {
        let r = ErrorReporter {
            level,
            primary_span,
            primary_msg: msg,
            span_labels: Vec::new(),
            cm,
            old_school: false,
        };
        assert(r.spec_labels() =~= Seq::<(Span, bool, Option<String>)>::empty());
        r
    }

    /// Adds a span to show, with an optional label; it is primary when it is
    /// the diagnostic's main span.
    pub fn span_label(&mut self, span: Span, label: Option<String>) -> (r: &mut ErrorReporter)
        ensures
            (*r).spec_level() == old(self).spec_level(),
            (*r).spec_message() == old(self).spec_message(),
            (*r).spec_primary_span() == old(self).spec_primary_span(),
            (*r).spec_old_school() == old(self).spec_old_school(),
            (*r).spec_code_map() == old(self).spec_code_map(),
            (*r).spec_labels() == old(self).spec_labels().push(
                (span, span == old(self).spec_primary_span(), label),
            ),
            *final(self) == *final(r),
    {
        let is_primary = same_span(&span, &self.primary_span);
        let ghost before = self.span_labels@;
        self.span_labels.push(SpanLabel { span, is_primary, label });
        assert(self.spec_labels() =~= before.map_values(
            |l: SpanLabel| (l.span, l.is_primary, l.label),
        ).push((span, is_primary, label)));
        self
    }

    /// Switches the legacy caret mode on or off.
    pub fn set_old_school(&mut self, on: bool)
        ensures
            final(self).spec_old_school() == on,
            final(self).spec_level() == old(self).spec_level(),
            final(self).spec_message() == old(self).spec_message(),
            final(self).spec_primary_span() == old(self).spec_primary_span(),
            final(self).spec_labels() == old(self).spec_labels(),
            final(self).spec_code_map() == old(self).spec_code_map(),
    {
        self.old_school = on;
    }

    /// Renders the diagnostic as styled rows: the header, then every line that
    /// a label lands on, files by name and lines ascending, with underlines and
    /// labels laid out below each. Every span must resolve on the code map:
    /// codemap panics on one that does not and offers no call to test it
    /// beforehand, so a line whose span does not resolve cannot be skipped.
    pub fn render(&mut self) -> (r: Vec<Vec<StyledString>>)
        requires
            old(self).spans_resolve(),
        ensures
            *final(self) == *old(self),
            r@.len() >= 2,
            old(self).spec_message().len() + 32 <= usize::MAX ==> renders(
                r@[0]@,
                title_cells(old(self).spec_level(), old(self).spec_message()),
            ),
            old(self).spec_labels().len() == 0 ==> r@.len() == 2,
            exists|places: Seq<SpanPlace>, head: SpanPlace, lines: Seq<Line>|
                rendered_from(
                    r@,
                    old(self).spec_level(),
                    old(self).spec_message(),
                    old(self).spec_labels(),
                    old(self).spec_old_school(),
                    places,
                    head,
                    lines,
                ),
    {
        let ghost labels = self.spec_labels();
        let ghost mut places: Seq<SpanPlace> = Seq::empty();
        let mut entries: Vec<PlacedAnnotation> = Vec::new();
        let mut i: usize = 0;
        while i < self.span_labels.len()
            invariant
                i <= self.span_labels@.len(),
                labels == self.spec_labels(),
                self.spans_resolve(),
                places.len() == i,
                forall|k: int| 0 <= k < i ==> place_ok(#[trigger] places[k]),
                entries@ == entries_of(places, labels.subrange(0, i as int)),
            decreases self.span_labels.len() - i,
        {
            let sl = &self.span_labels[i];
            assert(labels[i as int].0 == sl.span);
            let place = look_up(&self.cm, sl.span);
            let ghost p = place;
            proof {
                let l2 = labels.subrange(0, i + 1);
                assert(l2.drop_last() =~= labels.subrange(0, i as int));
                assert(places.push(p).drop_last() =~= places);
                assert(l2.last() == (sl.span, sl.is_primary, sl.label));
            }
            // a column this far right lies beyond any grid row
            if place.start_col < usize::MAX {
                let label = match &sl.label {
                    Some(s) => Some(s.clone()),
                    None => None,
                };
                entries.push(place_label(place, sl.is_primary, label));
            }
            proof {
                places = places.push(p);
            }
            i = i + 1;
        }
        assert(labels.subrange(0, i as int) =~= labels);
        let lines = group_lines(&entries);
        let head = look_up(&self.cm, self.primary_span);
        proof {
            if labels.len() == 0 {
                assert(entries@.len() == 0);
                reveal(crate::group::lines_named);
                if lines@.len() > 0 {
                    assert(crate::group::has_entry(
                        entries@,
                        lines@[0].file@,
                        lines@[0].line_index as nat,
                        lines@[0].text@,
                    ));
                }
                assert(lines@.len() == 0);
                assert(lines_fit(lines@));
            }
            lemma_report_header(self.level, self.primary_msg@, head.position@, lines@, self.old_school);
            lemma_report_header(self.level, self.primary_msg@, head.position@, Seq::empty(), self.old_school);
        }
        let r = if check_lines_fit(&lines) {
            render_resolved(self.level, self.primary_msg.as_str(), head.position.as_str(), &lines, self.old_school)
        } else {
            let no_lines: Vec<Line> = Vec::new();
            assert(no_lines@ =~= Seq::<Line>::empty());
            render_resolved(self.level, self.primary_msg.as_str(), head.position.as_str(), &no_lines, self.old_school)
        };
        assert(rendered_from(r@, self.level, self.primary_msg@, labels, self.old_school, places, head, lines@));
        assert(rendered_from(
            r@,
            self.spec_level(),
            self.spec_message(),
            self.spec_labels(),
            self.spec_old_school(),
            places,
            head,
            lines@,
        ));
        r
    }
}

} // verus!
