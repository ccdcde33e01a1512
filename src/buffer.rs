use vstd::prelude::*;
use crate::style::Style;
use vstd::std_specs::iter::IteratorSpec;

verus! {

/// A stretch of text in one style.
#[derive(Clone, Debug, PartialEq, Eq)]
pub struct StyledString {
    pub text: String,
    pub style: Style,
}

/// The cell that fills a gap left to the left of a written cell.
pub open spec fn blank() -> (char, Style) {
    (' ', Style::NoStyle)
}

/// `g` extended with empty rows until it has at least `n` rows.
pub open spec fn with_rows(g: Seq<Seq<(char, Style)>>, n: nat) -> Seq<Seq<(char, Style)>> {
    if g.len() >= n {
        g
    } else {
        g + Seq::new((n - g.len()) as nat, |i: int| Seq::<(char, Style)>::empty())
    }
}

/// `r` extended with blank cells until it has at least `n` cells.
pub open spec fn padded(r: Seq<(char, Style)>, n: nat) -> Seq<(char, Style)> {
    if r.len() >= n {
        r
    } else {
        r + Seq::new((n - r.len()) as nat, |i: int| blank())
    }
}

/// The grid after cell (`row`, `col`) is set to `c`, growing it as needed. A
/// cell whose row or column would be `usize::MAX` or more lies beyond any grid
/// and is not written.
pub open spec fn put_cell(g: Seq<Seq<(char, Style)>>, row: nat, col: nat, c: (char, Style)) -> Seq<
    Seq<(char, Style)>,
> {
    if row >= usize::MAX || col >= usize::MAX {
        g
    } else {
        let g1 = with_rows(g, row + 1);
        g1.update(row as int, padded(g1[row as int], col + 1).update(col as int, c))
    }
}

/// The grid after the characters of `s` are written in style `st`, from
/// column `col` of row `row` rightwards.
pub open spec fn put_text(
    g: Seq<Seq<(char, Style)>>,
    row: nat,
    col: nat,
    s: Seq<char>,
    st: Style,
) -> Seq<Seq<(char, Style)>>
    decreases s.len(),
{
    if s.len() == 0 {
        g
    } else {
        put_cell(put_text(g, row, col, s.drop_last(), st), row, (col + s.len() - 1) as nat, (s.last(), st))
    }
}

/// The grid after `s` is written at the end of row `row` (which is made to
/// exist, unless it lies beyond any grid).
pub open spec fn append_text(g: Seq<Seq<(char, Style)>>, row: nat, s: Seq<char>, st: Style) -> Seq<
    Seq<(char, Style)>,
> {
    if row >= usize::MAX {
        g
    } else {
        let g1 = with_rows(g, row + 1);
        put_text(g1, row, g1[row as int].len(), s, st)
    }
}

/// The grid after the style of an existing cell is changed; a cell outside the
/// grid is left alone.
pub open spec fn restyle(g: Seq<Seq<(char, Style)>>, row: nat, col: nat, st: Style) -> Seq<
    Seq<(char, Style)>,
> {
    if row < g.len() && col < g[row as int].len() {
        g.update(row as int, g[row as int].update(col as int, (g[row as int][col as int].0, st)))
    } else {
        g
    }
}

/// The cells that a styled string stands for.
pub open spec fn cells_of(s: StyledString) -> Seq<(char, Style)> {
    s.text@.map_values(|c: char| (c, s.style))
}

/// The cells of a sequence of styled strings, one after the other.
pub open spec fn flatten(ss: Seq<StyledString>) -> Seq<(char, Style)>
    decreases ss.len(),
{
    if ss.len() == 0 {
        Seq::empty()
    } else {
        flatten(ss.drop_last()) + cells_of(ss.last())
    }
}

/// A row split into runs: none empty, and no two neighbours of one style.
pub open spec fn is_run_split(ss: Seq<StyledString>) -> bool {
    &&& forall|i: int| 0 <= i < ss.len() ==> #[trigger] ss[i].text@.len() > 0
    &&& forall|i: int, j: int|
        #![trigger ss[i], ss[j]]
        0 <= i && j == i + 1 && j < ss.len() ==> ss[i].style != ss[j].style
}

/// `ss` is a split of `row` into maximal runs of one style.
pub open spec fn renders(ss: Seq<StyledString>, row: Seq<(char, Style)>) -> bool {
    flatten(ss) == row && is_run_split(ss)
}

/// Writing text never removes a row.
pub proof fn lemma_put_text_grows(g: Seq<Seq<(char, Style)>>, row: nat, col: nat, s: Seq<char>, st: Style)
    ensures
        put_text(g, row, col, s, st).len() >= g.len(),
    decreases s.len(),
{
    if s.len() > 0 {
        lemma_put_text_grows(g, row, col, s.drop_last(), st);
    }
}

/// Appending to a row makes that row exist and removes none.
pub proof fn lemma_append_grows(g: Seq<Seq<(char, Style)>>, row: nat, s: Seq<char>, st: Style)
    ensures
        append_text(g, row, s, st).len() >= g.len(),
        row < usize::MAX ==> append_text(g, row, s, st).len() > row,
{
    if row < usize::MAX {
        let g1 = with_rows(g, row + 1);
        lemma_put_text_grows(g1, row, g1[row as int].len(), s, st);
    }
}

/// `g2` has every row of `g1` and leaves the rows above row `n` as `g1` had them.
pub open spec fn keeps_rows(g1: Seq<Seq<(char, Style)>>, g2: Seq<Seq<(char, Style)>>, n: nat) -> bool {
    &&& g2.len() >= g1.len()
    &&& forall|i: int| 0 <= i < n && i < g1.len() ==> #[trigger] g2[i] == g1[i]
}

pub proof fn lemma_keeps_trans(
    g1: Seq<Seq<(char, Style)>>,
    g2: Seq<Seq<(char, Style)>>,
    g3: Seq<Seq<(char, Style)>>,
    n: nat,
)
    requires
        keeps_rows(g1, g2, n),
        keeps_rows(g2, g3, n),
    ensures
        keeps_rows(g1, g3, n),
{
    assert forall|i: int| 0 <= i < n && i < g1.len() implies #[trigger] g3[i] == g1[i] by {
        assert(g2[i] == g1[i]);
    }
}

pub proof fn lemma_put_cell_keeps(g: Seq<Seq<(char, Style)>>, row: nat, col: nat, c: (char, Style), n: nat)
    requires
        row >= n,
    ensures
        keeps_rows(g, put_cell(g, row, col, c), n),
{
    if row < usize::MAX && col < usize::MAX {
        let g1 = with_rows(g, row + 1);
        assert forall|i: int| 0 <= i < g.len() implies #[trigger] g1[i] == g[i] by {}
    }
}

pub proof fn lemma_put_text_keeps(g: Seq<Seq<(char, Style)>>, row: nat, col: nat, s: Seq<char>, st: Style, n: nat)
    requires
        row >= n,
    ensures
        keeps_rows(g, put_text(g, row, col, s, st), n),
    decreases s.len(),
{
    if s.len() > 0 {
        let g1 = put_text(g, row, col, s.drop_last(), st);
        lemma_put_text_keeps(g, row, col, s.drop_last(), st, n);
        lemma_put_cell_keeps(g1, row, (col + s.len() - 1) as nat, (s.last(), st), n);
        lemma_keeps_trans(g, g1, put_text(g, row, col, s, st), n);
    }
}

pub proof fn lemma_append_keeps(g: Seq<Seq<(char, Style)>>, row: nat, s: Seq<char>, st: Style, n: nat)
    requires
        row >= n,
    ensures
        keeps_rows(g, append_text(g, row, s, st), n),
{
    if row < usize::MAX {
        let g1 = with_rows(g, row + 1);
        assert forall|i: int| 0 <= i < g.len() implies #[trigger] g1[i] == g[i] by {}
        lemma_put_text_keeps(g1, row, g1[row as int].len(), s, st, n);
        lemma_keeps_trans(g, g1, append_text(g, row, s, st), n);
    }
}

pub proof fn lemma_restyle_keeps(g: Seq<Seq<(char, Style)>>, row: nat, col: nat, st: Style, n: nat)
    requires
        row >= n,
    ensures
        keeps_rows(g, restyle(g, row, col, st), n),
{
}

/// Writing text into an existing row adds no row.
pub proof fn lemma_put_text_same_rows(g: Seq<Seq<(char, Style)>>, row: nat, col: nat, s: Seq<char>, st: Style)
    requires
        row < g.len(),
    ensures
        put_text(g, row, col, s, st).len() == g.len(),
    decreases s.len(),
{
    if s.len() > 0 {
        lemma_put_text_same_rows(g, row, col, s.drop_last(), st);
    }
}

/// Writing `s` right after the end of an existing row extends that row by `s`'s
/// cells, where the row stays shorter than `usize::MAX`.
pub proof fn lemma_put_text_extends(g: Seq<Seq<(char, Style)>>, row: nat, s: Seq<char>, st: Style)
    requires
        row < g.len(),
        row < usize::MAX,
        g[row as int].len() + s.len() <= usize::MAX,
    ensures
        put_text(g, row, g[row as int].len(), s, st) == g.update(row as int, g[row as int] + run_cells(s, st)),
    decreases s.len(),
{
    let col = g[row as int].len();
    if s.len() == 0 {
        assert(g[row as int] + run_cells(s, st) =~= g[row as int]);
        assert(g.update(row as int, g[row as int]) =~= g);
    } else {
        let d = s.drop_last();
        lemma_put_text_extends(g, row, d, st);
        let g1 = g.update(row as int, g[row as int] + run_cells(d, st));
        let r1 = g1[row as int];
        assert(r1.len() == col + d.len());
        assert(with_rows(g1, row + 1) == g1);
        assert(padded(r1, (col + s.len()) as nat) =~= r1.push(blank()));
        assert(run_cells(s, st) =~= run_cells(d, st).push((s.last(), st)));
        assert(r1.push(blank()).update((col + s.len() - 1) as int, (s.last(), st)) =~= g[row as int]
            + run_cells(s, st));
        assert(g1.update(row as int, g[row as int] + run_cells(s, st)) =~= g.update(
            row as int,
            g[row as int] + run_cells(s, st),
        ));
    }
}

/// Relies on `FromIterator<char> for String`: the string holds the characters in order.
#[verifier::external_body]
pub(crate) fn string_of_chars(v: &Vec<char>) -> (r: String)
    ensures
        r@ == v@,
{
    v.iter().collect()
}

/// A grid of characters, each with a style, that grows as it is written.
pub struct StyledBuffer {
    lines: Vec<Vec<(char, Style)>>,
}

impl View for StyledBuffer {
    type V = Seq<Seq<(char, Style)>>;

    closed spec fn view(&self) -> Seq<Seq<(char, Style)>> {
        Seq::new(self.lines@.len(), |i: int| self.lines@[i]@)
    }
}

impl StyledBuffer {
    pub fn new() -> (r: StyledBuffer)
        ensures
            r@ == Seq::<Seq<(char, Style)>>::empty(),
    {
        let r = StyledBuffer { lines: Vec::new() };
        assert(r@ =~= Seq::<Seq<(char, Style)>>::empty());
        r
    }

    /// The number of rows.
    pub fn num_lines(&self) -> (r: usize)
        ensures
            r == self@.len(),
    {
        self.lines.len()
    }

    /// Adds empty rows until row `row` exists.
    fn ensure_rows(&mut self, row: usize)
        requires
            row < usize::MAX,
        ensures
            final(self)@ == with_rows(old(self)@, (row + 1) as nat),
    {
        let ghost g0 = self@;
        while self.lines.len() <= row
            invariant
                row < usize::MAX,
                g0.len() <= self@.len(),
                self@.len() <= row + 1 || self@.len() == g0.len(),
                self@ =~= with_rows(g0, self@.len()),
            decreases row + 1 - self.lines.len(),
        {
            let ghost before = self@;
            self.lines.push(Vec::new());
            assert(self@ =~= before.push(Seq::<(char, Style)>::empty()));
            assert(self@ =~= with_rows(g0, self@.len()));
        }
        assert(self@ =~= with_rows(g0, (row + 1) as nat));
    }

    /// Sets the cell at (`row`, `col`), growing the grid with empty rows and
    /// blank cells as needed.
    pub fn putc(&mut self, row: usize, col: usize, c: char, style: Style)
        ensures
            final(self)@ == put_cell(old(self)@, row as nat, col as nat, (c, style)),
    {
        if row < usize::MAX && col < usize::MAX {
            self.put_in_range(row, col, c, style);
        }
    }

    fn put_in_range(&mut self, row: usize, col: usize, c: char, style: Style)
        requires
            row < usize::MAX,
            col < usize::MAX,
        ensures
            final(self)@ == put_cell(old(self)@, row as nat, col as nat, (c, style)),
    {
        let ghost g0 = self@;
        self.ensure_rows(row);
        let ghost g1 = self@;
        assert(g1.len() > row);
        let mut r = self.lines.remove(row);
        assert(self@ =~= g1.remove(row as int));
        let ghost r0 = r@;
        while r.len() <= col
            invariant
                col < usize::MAX,
                r0.len() <= r@.len(),
                r@.len() <= col + 1 || r@.len() == r0.len(),
                r@ =~= padded(r0, r@.len()),
            decreases col + 1 - r.len(),
        {
            r.push((' ', Style::NoStyle));
        }
        assert(r@ =~= padded(r0, (col + 1) as nat));
        r.set(col, (c, style));
        let ghost rv = r@;
        let ghost mid = self@;
        self.lines.insert(row, r);
        assert(self@ =~= mid.insert(row as int, rv));
        assert(self@ =~= put_cell(g0, row as nat, col as nat, (c, style)));
    }

    /// Writes the characters of `s` from column `col` of row `row` rightwards.
    pub fn puts(&mut self, row: usize, col: usize, s: &str, style: Style)
        ensures
            final(self)@ == put_text(old(self)@, row as nat, col as nat, s@, style),
    {
        let ghost g0 = self@;
        let chars = chars_of(s);
        let mut i: usize = 0;
        while i < chars.len()
            invariant
                chars@ == s@,
                i <= chars@.len(),
                self@ == put_text(g0, row as nat, col as nat, s@.subrange(0, i as int), style),
            decreases chars.len() - i,
        {
            if col <= usize::MAX - i {
                self.putc(row, col + i, chars[i], style);
            }
            proof {
                let t = s@.subrange(0, i + 1);
                assert(t.drop_last() =~= s@.subrange(0, i as int));
            }
            i = i + 1;
        }
        assert(s@.subrange(0, i as int) =~= s@);
    }

    /// Writes `s` at the end of row `row`, which is made to exist.
    pub fn append(&mut self, row: usize, s: &str, style: Style)
        ensures
            final(self)@ == append_text(old(self)@, row as nat, s@, style),
    {
        if row == usize::MAX {
            return;
        }
        let ghost g0 = self@;
        self.ensure_rows(row);
        assert(self@.len() == self.lines@.len());
        assert(self@[row as int] == self.lines@[row as int]@);
        let col = self.lines[row].len();
        self.puts(row, col, s, style);
    }

    /// Changes the style of the cell at (`row`, `col`) where there is one.
    pub fn set_style(&mut self, row: usize, col: usize, style: Style)
        ensures
            final(self)@ == restyle(old(self)@, row as nat, col as nat, style),
    {
        let ghost g0 = self@;
        if row < self.lines.len() && col < self.lines[row].len() {
            let ghost g1 = self@;
            let mut r = self.lines.remove(row);
            assert(self@ =~= g1.remove(row as int));
            let c = r[col].0;
            r.set(col, (c, style));
            let ghost rv = r@;
            let ghost mid = self@;
            self.lines.insert(row, r);
            assert(self@ =~= mid.insert(row as int, rv));
            assert(self@ =~= restyle(g0, row as nat, col as nat, style));
        }
    }

    /// Each row as a sequence of maximal runs of one style.
    pub fn render(&self) -> (r: Vec<Vec<StyledString>>)
        ensures
            r@.len() == self@.len(),
            forall|i: int| 0 <= i < r@.len() ==> renders(#[trigger] r@[i]@, self@[i]),
    {
        let mut out: Vec<Vec<StyledString>> = Vec::new();
        let mut i: usize = 0;
        while i < self.lines.len()
            invariant
                i <= self@.len(),
                out@.len() == i,
                forall|k: int| 0 <= k < i ==> renders(#[trigger] out@[k]@, self@[k]),
            decreases self.lines.len() - i,
        {
            let row = render_row(&self.lines[i]);
            assert(self@[i as int] == self.lines@[i as int]@);
            let ghost o0 = out@;
            out.push(row);
            assert(forall|k: int| 0 <= k < i ==> out@[k] == o0[k]);
            i = i + 1;
        }
        out
    }
}

/// The characters of `s`, in order.
pub(crate) fn chars_of(s: &str) -> (r: Vec<char>)
    ensures
        r@ == s@,
{
    broadcast use vstd::string::axiom_spec_iter, vstd::string::next_postcondition;

    let mut it = s.chars();
    let mut r: Vec<char> = Vec::new();
    loop
        invariant
            it.obeys_prophetic_iter_laws(),
            r@ + it.remaining() == s@,
            it.decrease() is Some,
        ensures
            r@ == s@,
        decreases it.decrease()->0,
    {
        let ghost before = it.remaining();
        match it.next() {
            Some(c) => {
                r.push(c);
                assert(r@ + it.remaining() =~= s@) by {
                    assert(before =~= seq![c] + before.drop_first());
                }
            },
            None => {
                assert(r@ =~= s@);
                break;
            },
        }
    }
    r
}

/// The cells of characters all in one style.
pub open spec fn run_cells(cs: Seq<char>, st: Style) -> Seq<(char, Style)> {
    cs.map_values(|c: char| (c, st))
}

proof fn lemma_flatten_push(ss: Seq<StyledString>, x: StyledString)
    ensures
        flatten(ss.push(x)) == flatten(ss) + cells_of(x),
{
    assert(ss.push(x).drop_last() =~= ss);
}

proof fn lemma_run_split_push(ss: Seq<StyledString>, x: StyledString)
    requires
        is_run_split(ss),
        x.text@.len() > 0,
        ss.len() > 0 ==> x.style != ss.last().style,
    ensures
        is_run_split(ss.push(x)),
{
    let t = ss.push(x);
    assert forall|i: int, j: int| 0 <= i && j == i + 1 && j < t.len() implies #[trigger] t[i].style
        != #[trigger] t[j].style by {
        if j < ss.len() {
            assert(ss[i].style != ss[j].style);
        }
    }
    assert forall|i: int| 0 <= i < t.len() implies #[trigger] t[i].text@.len() > 0 by {
        if i < ss.len() {
            assert(ss[i].text@.len() > 0);
        }
    }
}

proof fn lemma_run_cells_push(cs: Seq<char>, c: char, st: Style)
    ensures
        run_cells(cs.push(c), st) == run_cells(cs, st).push((c, st)),
{
    assert(run_cells(cs.push(c), st) =~= run_cells(cs, st).push((c, st)));
}

/// Splits one row into maximal runs of one style.
fn render_row(row: &Vec<(char, Style)>) -> (r: Vec<StyledString>)
    ensures
        renders(r@, row@),
{
    let mut out: Vec<StyledString> = Vec::new();
    let mut cur: Vec<char> = Vec::new();
    let mut cur_style = Style::NoStyle;
    let mut j: usize = 0;
    while j < row.len()
        invariant
            j <= row@.len(),
            flatten(out@) + run_cells(cur@, cur_style) == row@.subrange(0, j as int),
            is_run_split(out@),
            j > 0 ==> cur@.len() > 0,
            j == 0 ==> cur@.len() == 0 && out@.len() == 0,
            out@.len() > 0 ==> out@.last().style != cur_style,
        decreases row.len() - j,
    {
        let (c, st) = row[j];
        let ghost before = row@.subrange(0, j as int);
        if j > 0 && st != cur_style {
            let text = string_of_chars(&cur);
            let piece = StyledString { text, style: cur_style };
            proof {
                assert(cells_of(piece) =~= run_cells(cur@, cur_style));
                lemma_flatten_push(out@, piece);
                lemma_run_split_push(out@, piece);
            }
            out.push(piece);
            cur = Vec::new();
            assert(run_cells(cur@, st) =~= Seq::<(char, Style)>::empty());
        }
        proof {
            lemma_run_cells_push(cur@, c, st);
        }
        cur_style = st;
        cur.push(c);
        assert(row@.subrange(0, j + 1) =~= before.push((c, st)));
        j = j + 1;
    }
    if cur.len() > 0 {
        let text = string_of_chars(&cur);
        let piece = StyledString { text, style: cur_style };
        proof {
            assert(cells_of(piece) =~= run_cells(cur@, cur_style));
            lemma_flatten_push(out@, piece);
        }
        out.push(piece);
    } else {
        assert(run_cells(cur@, cur_style) =~= Seq::<(char, Style)>::empty());
    }
    assert(row@.subrange(0, j as int) =~= row@);
    out
}

} // verus!
