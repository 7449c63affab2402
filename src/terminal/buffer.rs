//! A grid of characters, each with an optional style key, and its rendering.
//!
//! The grid owns a style table. Its central invariant: the reference count of
//! every key is the number of cells that hold that key, so a key found in a cell
//! is always held by the table, and a style that no cell uses is gone.
use vstd::prelude::*;

use crate::error::Error;
use crate::style::{
    AnsiSequence, Style, StyleView, lemma_plain_style_silent, plain_style, style_reset_sequence,
    style_sequence, style_wf,
};
use crate::text::push_all;
use crate::terminal::table::{
    Entries, StyleTable, entries_wf, intern_spec, is_live, lemma_intern_refs, refs_in,
};

verus! {

/// One character of the grid and the key of its style, if it has one.
#[derive(Debug, Clone, Copy, PartialEq, Eq, Structural)]
pub struct Cell {
    pub style: Option<usize>,
    pub character: char,
}

/// The number of cells of `l` that satisfy `p`.
pub open spec fn count_cells(l: Seq<Cell>, p: spec_fn(Cell) -> bool) -> nat
    decreases l.len(),
{
    if l.len() == 0 {
        0
    } else {
        count_cells(l.drop_last(), p) + if p(l.last()) {
            1nat
        } else {
            0nat
        }
    }
}

/// The number of cells of the grid that satisfy `p`.
pub open spec fn count_grid(g: Seq<Seq<Cell>>, p: spec_fn(Cell) -> bool) -> nat
    decreases g.len(),
{
    if g.len() == 0 {
        0
    } else {
        count_grid(g.drop_last(), p) + count_cells(g.last(), p)
    }
}

/// Cells that hold key `k`.
pub open spec fn has_key(k: int) -> spec_fn(Cell) -> bool {
    |c: Cell| c.style matches Some(x) && x as int == k
}

/// Every cell.
pub open spec fn any_cell() -> spec_fn(Cell) -> bool {
    |c: Cell| true
}

/// The number of characters of `t` that write a cell (all but line breaks).
pub open spec fn cells_in(t: Seq<char>) -> nat
    decreases t.len(),
{
    if t.len() == 0 {
        0
    } else {
        cells_in(t.drop_last()) + if t.last() == '\n' {
            0nat
        } else {
            1nat
        }
    }
}

/// Writing one character: a line break starts a new line; any other character
/// goes to the end of the last line, with style key `st`.
pub open spec fn append_char(g: Seq<Seq<Cell>>, c: char, st: Option<usize>) -> Seq<Seq<Cell>> {
    if c == '\n' {
        g.push(seq![])
    } else {
        g.update(g.len() - 1, g.last().push(Cell { style: st, character: c }))
    }
}

/// Writing the characters of `t` one after the other.
pub open spec fn append_text(g: Seq<Seq<Cell>>, t: Seq<char>, st: Option<usize>) -> Seq<
    Seq<Cell>,
>
    decreases t.len(),
{
    if t.len() == 0 {
        g
    } else {
        append_char(append_text(g, t.drop_last(), st), t.last(), st)
    }
}

/// The characters of a line.
pub open spec fn line_chars(l: Seq<Cell>) -> Seq<char> {
    Seq::new(l.len(), |i: int| l[i].character)
}

/// The characters of the grid, lines joined by line breaks.
pub open spec fn grid_text(g: Seq<Seq<Cell>>) -> Seq<char>
    decreases g.len(),
{
    if g.len() == 0 {
        seq![]
    } else if g.len() == 1 {
        line_chars(g[0])
    } else {
        grid_text(g.drop_last()) + seq!['\n'] + line_chars(g.last())
    }
}

/// Whether no cell of the grid has a style.
pub open spec fn unstyled(g: Seq<Seq<Cell>>) -> bool {
    forall|i: int, j: int| 0 <= i < g.len() && 0 <= j < g[i].len() ==> (#[trigger] g[i][j]).style is None
}

proof fn lemma_cells_in_le(t: Seq<char>)
    ensures
        cells_in(t) <= t.len(),
    decreases t.len(),
{
    if t.len() > 0 {
        lemma_cells_in_le(t.drop_last());
    }
}

proof fn lemma_count_cells_concat(a: Seq<Cell>, b: Seq<Cell>, p: spec_fn(Cell) -> bool)
    ensures
        count_cells(a + b, p) == count_cells(a, p) + count_cells(b, p),
    decreases b.len(),
{
    if b.len() == 0 {
        assert(a + b =~= a);
    } else {
        assert((a + b).drop_last() =~= a + b.drop_last());
        lemma_count_cells_concat(a, b.drop_last(), p);
    }
}

proof fn lemma_count_grid_concat(a: Seq<Seq<Cell>>, b: Seq<Seq<Cell>>, p: spec_fn(Cell) -> bool)
    ensures
        count_grid(a + b, p) == count_grid(a, p) + count_grid(b, p),
    decreases b.len(),
{
    if b.len() == 0 {
        assert(a + b =~= a);
    } else {
        assert((a + b).drop_last() =~= a + b.drop_last());
        lemma_count_grid_concat(a, b.drop_last(), p);
    }
}

proof fn lemma_count_cells_le(l: Seq<Cell>, p: spec_fn(Cell) -> bool)
    ensures
        count_cells(l, p) <= count_cells(l, any_cell()),
    decreases l.len(),
{
    if l.len() > 0 {
        lemma_count_cells_le(l.drop_last(), p);
    }
}

proof fn lemma_count_grid_le(g: Seq<Seq<Cell>>, p: spec_fn(Cell) -> bool)
    ensures
        count_grid(g, p) <= count_grid(g, any_cell()),
    decreases g.len(),
{
    if g.len() > 0 {
        lemma_count_grid_le(g.drop_last(), p);
        lemma_count_cells_le(g.last(), p);
    }
}

/// Counting over a grid whose last line is replaced.
proof fn lemma_count_grid_update_last(g: Seq<Seq<Cell>>, l: Seq<Cell>, p: spec_fn(Cell) -> bool)
    requires
        g.len() >= 1,
    ensures
        count_grid(g.update(g.len() - 1, l), p) + count_cells(g.last(), p) == count_grid(g, p)
            + count_cells(l, p),
{
    assert(g.update(g.len() - 1, l).drop_last() =~= g.drop_last());
}

/// What writing a character adds to a count.
proof fn lemma_count_append_char(g: Seq<Seq<Cell>>, c: char, st: Option<usize>, p: spec_fn(Cell) -> bool)
    requires
        g.len() >= 1,
    ensures
        append_char(g, c, st).len() >= 1,
        count_grid(append_char(g, c, st), p) == count_grid(g, p) + if c != '\n' && p(
            Cell { style: st, character: c },
        ) {
            1nat
        } else {
            0nat
        },
{
    if c == '\n' {
        assert(g.push(seq![]).drop_last() =~= g);
    } else {
        let l = g.last().push(Cell { style: st, character: c });
        lemma_count_grid_update_last(g, l, p);
        assert(l.drop_last() =~= g.last());
    }
}

/// Writing text adds one cell per character that is not a line break, each
/// with style key `st`.
proof fn lemma_count_append_text(g: Seq<Seq<Cell>>, t: Seq<char>, st: Option<usize>, k: int)
    requires
        g.len() >= 1,
    ensures
        append_text(g, t, st).len() >= 1,
        count_grid(append_text(g, t, st), any_cell()) == count_grid(g, any_cell()) + cells_in(t),
        count_grid(append_text(g, t, st), has_key(k)) == count_grid(g, has_key(k)) + if st
            matches Some(x) && x as int == k {
            cells_in(t)
        } else {
            0
        },
    decreases t.len(),
{
    if t.len() > 0 {
        lemma_count_append_text(g, t.drop_last(), st, k);
        let h = append_text(g, t.drop_last(), st);
        lemma_count_append_char(h, t.last(), st, any_cell());
        lemma_count_append_char(h, t.last(), st, has_key(k));
    }
}

proof fn lemma_line_chars_push(l: Seq<Cell>, cell: Cell)
    ensures
        line_chars(l.push(cell)) == line_chars(l).push(cell.character),
{
    assert(line_chars(l.push(cell)) =~= line_chars(l).push(cell.character));
}

/// Writing one character appends it to the grid's characters.
proof fn lemma_append_char_chars(h: Seq<Seq<Cell>>, c: char, st: Option<usize>)
    requires
        h.len() >= 1,
    ensures
        grid_text(append_char(h, c, st)) == grid_text(h).push(c),
{
    if c == '\n' {
        assert(h.push(seq![]).drop_last() =~= h);
        assert(line_chars(seq![]) =~= seq![]);
        assert(grid_text(h.push(seq![])) =~= grid_text(h) + seq!['\n'] + seq![]);
        assert(grid_text(h) + seq!['\n'] + seq![] =~= grid_text(h).push(c));
    } else {
        let cell = Cell { style: st, character: c };
        let l = h.last().push(cell);
        let h2 = h.update(h.len() - 1, l);
        lemma_line_chars_push(h.last(), cell);
        if h.len() == 1 {
            assert(grid_text(h2) =~= grid_text(h).push(c));
        } else {
            assert(h2.drop_last() =~= h.drop_last());
            assert(grid_text(h2) =~= grid_text(h).push(c));
        }
    }
}

/// Writing text appends exactly that text to the grid's characters.
pub proof fn lemma_append_text_chars(g: Seq<Seq<Cell>>, t: Seq<char>, st: Option<usize>)
    requires
        g.len() >= 1,
    ensures
        append_text(g, t, st).len() >= 1,
        grid_text(append_text(g, t, st)) == grid_text(g) + t,
    decreases t.len(),
{
    lemma_count_append_text(g, t, st, 0);
    if t.len() == 0 {
        assert(grid_text(g) + t =~= grid_text(g));
    } else {
        lemma_append_text_chars(g, t.drop_last(), st);
        let h = append_text(g, t.drop_last(), st);
        let c = t.last();
        assert(t.drop_last().push(c) =~= t);
        lemma_append_char_chars(h, c, st);
        assert(grid_text(g) + t =~= grid_text(g) + t.drop_last() + seq![c]);
    }
}

proof fn lemma_append_char_unstyled(h: Seq<Seq<Cell>>, c: char)
    requires
        h.len() >= 1,
        unstyled(h),
    ensures
        unstyled(append_char(h, c, None)),
{
    let h2 = append_char(h, c, None);
    if c == '\n' {
        assert forall|i: int, j: int| 0 <= i < h2.len() && 0 <= j < h2[i].len() implies (
        #[trigger] h2[i][j]).style is None by {
            if i < h.len() {
                assert(h2[i] == h[i]);
            }
        }
    } else {
        let l = h.last().push(Cell { style: None, character: c });
        assert forall|i: int, j: int| 0 <= i < h2.len() && 0 <= j < h2[i].len() implies (
        #[trigger] h2[i][j]).style is None by {
            if i < h.len() - 1 {
                assert(h2[i] == h[i]);
            } else if j < h[i].len() {
                assert(h2[i] == l);
                assert(l[j] == h[i][j]);
            }
        }
    }
}

/// Writing plain text into a grid without styled cells keeps it so.
proof fn lemma_append_text_unstyled(g: Seq<Seq<Cell>>, t: Seq<char>)
    requires
        g.len() >= 1,
        unstyled(g),
    ensures
        unstyled(append_text(g, t, None)),
    decreases t.len(),
{
    if t.len() > 0 {
        lemma_append_text_unstyled(g, t.drop_last());
        lemma_count_append_text(g, t.drop_last(), None, 0);
        let h = append_text(g, t.drop_last(), None);
        lemma_append_char_unstyled(h, t.last());
    }
}

/// The style a cell is drawn in: the one held under its key, or the plain
/// style for a cell without one.
pub open spec fn cell_style(t: Entries, c: Cell) -> StyleView {
    match c.style {
        Some(k) => if is_live(t, k as int) {
            t[k as int]->0.style
        } else {
            plain_style()
        },
        None => plain_style(),
    }
}

/// Drawing the cells of a line from the active style `active`: where a cell's
/// style differs from the active one, the active style's deactivating sequence
/// and the cell style's activating sequence come before the character, and
/// the cell style becomes the active one. Gives the text and the style active
/// at the end.
pub open spec fn render_cells(t: Entries, l: Seq<Cell>, active: StyleView) -> (Seq<char>, StyleView)
    decreases l.len(),
{
    if l.len() == 0 {
        (seq![], active)
    } else {
        let (out, now) = render_cells(t, l.drop_last(), active);
        let c = l.last();
        let st = cell_style(t, c);
        if st == now {
            (out.push(c.character), now)
        } else {
            (out + style_reset_sequence(now) + style_sequence(st) + seq![c.character], st)
        }
    }
}

/// Drawing the lines one after the other from the plain style, joined by line
/// breaks; the active style carries over from line to line.
pub open spec fn render_rows(t: Entries, g: Seq<Seq<Cell>>) -> (Seq<char>, StyleView)
    decreases g.len(),
{
    if g.len() == 0 {
        (seq![], plain_style())
    } else if g.len() == 1 {
        render_cells(t, g[0], plain_style())
    } else {
        let (out, now) = render_rows(t, g.drop_last());
        let (last, end) = render_cells(t, g.last(), now);
        (out + seq!['\n'] + last, end)
    }
}

/// The rendered grid: the drawn lines, then the deactivating sequence of the
/// style still active, so that no styling leaks past the end.
pub open spec fn render_spec(t: Entries, g: Seq<Seq<Cell>>) -> Seq<char> {
    let (out, end) = render_rows(t, g);
    if g.len() == 0 {
        out
    } else {
        out + style_reset_sequence(end)
    }
}

proof fn lemma_render_cells_unstyled(t: Entries, l: Seq<Cell>)
    requires
        forall|j: int| 0 <= j < l.len() ==> (#[trigger] l[j]).style is None,
    ensures
        render_cells(t, l, plain_style()) == (line_chars(l), plain_style()),
    decreases l.len(),
{
    if l.len() > 0 {
        lemma_render_cells_unstyled(t, l.drop_last());
        assert(l.last() == l[l.len() - 1]);
        lemma_line_chars_push(l.drop_last(), l.last());
        assert(l.drop_last().push(l.last()) =~= l);
    }
}

proof fn lemma_render_rows_unstyled(t: Entries, g: Seq<Seq<Cell>>)
    requires
        unstyled(g),
    ensures
        render_rows(t, g) == (grid_text(g), plain_style()),
    decreases g.len(),
{
    if g.len() > 0 {
        assert forall|j: int| 0 <= j < g.last().len() implies (#[trigger] g.last()[j]).style is None by {
            assert(g.last()[j] == g[g.len() - 1][j]);
        }
        if g.len() == 1 {
            lemma_render_cells_unstyled(t, g[0]);
        } else {
            assert(unstyled(g.drop_last())) by {
                assert forall|i: int, j: int|
                    0 <= i < g.drop_last().len() && 0 <= j < g.drop_last()[i].len() implies (
                #[trigger] g.drop_last()[i][j]).style is None by {
                    assert(g.drop_last()[i][j] == g[i][j]);
                }
            }
            lemma_render_rows_unstyled(t, g.drop_last());
            lemma_render_cells_unstyled(t, g.last());
        }
    }
}

/// A grid without styled cells renders as its characters alone, lines joined
/// by line breaks, with no escape sequence.
pub proof fn lemma_render_unstyled(t: Entries, g: Seq<Seq<Cell>>)
    requires
        unstyled(g),
    ensures
        render_spec(t, g) == grid_text(g),
{
    lemma_render_rows_unstyled(t, g);
    lemma_plain_style_silent();
    assert(grid_text(g) + Seq::<char>::empty() =~= grid_text(g));
}

/// Appending plain text to a grid without styled cells keeps it so, and its
/// rendering grows by exactly that text: a grid built from plain text alone
/// renders as the concatenation of what was appended.
pub proof fn lemma_render_plain_append(t: Entries, g: Seq<Seq<Cell>>, s: Seq<char>)
    requires
        g.len() >= 1,
        unstyled(g),
    ensures
        unstyled(append_text(g, s, None)),
        render_spec(t, append_text(g, s, None)) == render_spec(t, g) + s,
{
    lemma_append_text_unstyled(g, s);
    lemma_append_text_chars(g, s, None);
    lemma_render_unstyled(t, g);
    lemma_render_unstyled(t, append_text(g, s, None));
}

/// The line a replacement starts in: the first of the range, or an empty
/// line when the range holds no line.
pub open spec fn first_line(g: Seq<Seq<Cell>>, ls: int, le: int) -> Seq<Cell> {
    if ls < le {
        g[ls]
    } else {
        seq![]
    }
}

/// The line a replacement ends in: the last of the range, or an empty line
/// when the range holds no line.
pub open spec fn last_line(g: Seq<Seq<Cell>>, ls: int, le: int) -> Seq<Cell> {
    if ls < le {
        g[le - 1]
    } else {
        seq![]
    }
}

/// Why replacing lines `ls..le`, from column `cs` of the first to column `ce`
/// of the last, is refused: a range that starts after its end, then a range
/// past the lines or past the addressed line's length.
pub open spec fn replace_error(g: Seq<Seq<Cell>>, ls: int, le: int, cs: int, ce: int) -> Option<
    Error,
> {
    if ls > le || cs > ce {
        Some(Error::InvalidRange)
    } else if le > g.len() || cs > first_line(g, ls, le).len() || ce > last_line(
        g,
        ls,
        le,
    ).len() {
        Some(Error::OutOfBounds)
    } else {
        None
    }
}

/// The grid after the replacement: the cells before column `cs` of the first
/// line, then the lines of `t` as unstyled cells, then the cells from column
/// `ce` of the last line; the lines before and after the range stay. With no
/// line break in `t` this is one line.
pub open spec fn replaced(g: Seq<Seq<Cell>>, ls: int, le: int, cs: int, ce: int, t: Seq<char>) -> Seq<
    Seq<Cell>,
> {
    let ins = append_text(seq![first_line(g, ls, le).take(cs)], t, None);
    g.take(ls) + ins.update(ins.len() - 1, ins.last() + last_line(g, ls, le).skip(ce)) + g.skip(le)
}

/// Where the removed cells of line `m` start.
pub open spec fn cut_start(ls: int, cs: int, m: int) -> int {
    if m == ls {
        cs
    } else {
        0
    }
}

/// Where the removed cells of line `m` end.
pub open spec fn cut_end(g: Seq<Seq<Cell>>, le: int, ce: int, m: int) -> int {
    if m == le - 1 {
        ce
    } else {
        g[m].len() as int
    }
}

/// The number of removed cells satisfying `p` in lines `ls..i`.
pub open spec fn removed(
    g: Seq<Seq<Cell>>,
    ls: int,
    le: int,
    cs: int,
    ce: int,
    i: int,
    p: spec_fn(Cell) -> bool,
) -> nat
    decreases i - ls,
{
    if i <= ls {
        0
    } else {
        removed(g, ls, le, cs, ce, i - 1, p) + count_cells(
            g[i - 1].subrange(cut_start(ls, cs, i - 1), cut_end(g, le, ce, i - 1)),
            p,
        )
    }
}

proof fn lemma_split_line(l: Seq<Cell>, a: int, b: int, p: spec_fn(Cell) -> bool)
    requires
        0 <= a <= b <= l.len(),
    ensures
        count_cells(l, p) == count_cells(l.take(a), p) + count_cells(l.subrange(a, b), p)
            + count_cells(l.skip(b), p),
{
    assert(l =~= l.take(a) + l.subrange(a, b) + l.skip(b));
    lemma_count_cells_concat(l.take(a) + l.subrange(a, b), l.skip(b), p);
    lemma_count_cells_concat(l.take(a), l.subrange(a, b), p);
}

proof fn lemma_count_cells_empty(p: spec_fn(Cell) -> bool)
    ensures
        count_cells(Seq::<Cell>::empty(), p) == 0,
{
}

/// The lines of the range hold the kept prefix, the removed cells and the kept
/// suffix.
proof fn lemma_removed_lines(
    g: Seq<Seq<Cell>>,
    ls: int,
    le: int,
    cs: int,
    ce: int,
    i: int,
    p: spec_fn(Cell) -> bool,
)
    requires
        replace_error(g, ls, le, cs, ce) is None,
        0 <= ls < i <= le,
        0 <= cs,
    ensures
        count_grid(g.subrange(ls, i), p) == count_cells(first_line(g, ls, le).take(cs), p)
            + removed(g, ls, le, cs, ce, i, p) + if i == le {
            count_cells(last_line(g, ls, le).skip(ce), p)
        } else {
            0
        },
    decreases i - ls,
{
    let m = i - 1;
    let a = cut_start(ls, cs, m);
    let b = cut_end(g, le, ce, m);
    assert(first_line(g, ls, le) == g[ls]);
    assert(last_line(g, ls, le) == g[le - 1]);
    assert(0 <= a <= b <= g[m].len());
    lemma_split_line(g[m], a, b, p);
    lemma_count_cells_empty(p);
    let sub = g.subrange(ls, i);
    assert(sub.drop_last() =~= g.subrange(ls, m));
    assert(sub.last() == g[m]);
    assert(count_grid(sub, p) == count_grid(g.subrange(ls, m), p) + count_cells(g[m], p));
    assert(removed(g, ls, le, cs, ce, i, p) == removed(g, ls, le, cs, ce, m, p) + count_cells(
        g[m].subrange(a, b),
        p,
    ));
    let tail_count: nat = if i == le {
        count_cells(last_line(g, ls, le).skip(ce), p)
    } else {
        0
    };
    if i == le {
        assert(g[m].skip(b) == last_line(g, ls, le).skip(ce));
    } else {
        assert(g[m].skip(b) =~= Seq::<Cell>::empty());
    }
    assert(count_cells(g[m].skip(b), p) == tail_count);
    if m > ls {
        lemma_removed_lines(g, ls, le, cs, ce, m, p);
        assert(g[m].take(a) =~= Seq::<Cell>::empty());
    } else {
        assert(g.subrange(ls, m) =~= Seq::<Seq<Cell>>::empty());
        assert(count_grid(g.subrange(ls, m), p) == 0);
        assert(removed(g, ls, le, cs, ce, m, p) == 0);
        assert(g[m].take(a) == first_line(g, ls, le).take(cs));
    }
}

proof fn lemma_removed_monotone(
    g: Seq<Seq<Cell>>,
    ls: int,
    le: int,
    cs: int,
    ce: int,
    i: int,
    j: int,
    p: spec_fn(Cell) -> bool,
)
    requires
        i <= j,
    ensures
        removed(g, ls, le, cs, ce, i, p) <= removed(g, ls, le, cs, ce, j, p),
    decreases j - i,
{
    if i < j {
        lemma_removed_monotone(g, ls, le, cs, ce, i, j - 1, p);
    }
}

/// The grid around and inside the range.
proof fn lemma_grid_split(g: Seq<Seq<Cell>>, ls: int, le: int, p: spec_fn(Cell) -> bool)
    requires
        0 <= ls <= le <= g.len(),
    ensures
        count_grid(g, p) == count_grid(g.take(ls), p) + count_grid(g.subrange(ls, le), p)
            + count_grid(g.skip(le), p),
{
    assert(g =~= g.take(ls) + g.subrange(ls, le) + g.skip(le));
    lemma_count_grid_concat(g.take(ls) + g.subrange(ls, le), g.skip(le), p);
    lemma_count_grid_concat(g.take(ls), g.subrange(ls, le), p);
}

/// Every removed cell, in whatever line, is counted once in the grid.
proof fn lemma_removed_bound(
    g: Seq<Seq<Cell>>,
    ls: int,
    le: int,
    cs: int,
    ce: int,
    i: int,
    j: int,
    p: spec_fn(Cell) -> bool,
)
    requires
        replace_error(g, ls, le, cs, ce) is None,
        0 <= ls <= i < le,
        0 <= cs,
        cut_start(ls, cs, i) <= j < cut_end(g, le, ce, i),
    ensures
        removed(g, ls, le, cs, ce, i, p) + count_cells(
            g[i].subrange(cut_start(ls, cs, i), j + 1),
            p,
        ) <= count_grid(g, p),
{
    let a = cut_start(ls, cs, i);
    let b = cut_end(g, le, ce, i);
    assert(first_line(g, ls, le) == g[ls]);
    assert(last_line(g, ls, le) == g[le - 1]);
    assert(0 <= a <= b <= g[i].len());
    lemma_split_line(g[i].subrange(a, b), 0, j + 1 - a, p);
    assert(g[i].subrange(a, b).take(0) =~= Seq::<Cell>::empty());
    assert(g[i].subrange(a, b).subrange(0, j + 1 - a) =~= g[i].subrange(a, j + 1));
    lemma_count_cells_empty(p);
    lemma_removed_monotone(g, ls, le, cs, ce, i + 1, le, p);
    lemma_removed_lines(g, ls, le, cs, ce, le, p);
    lemma_grid_split(g, ls, le, p);
}

proof fn lemma_append_char_after(a: Seq<Seq<Cell>>, h: Seq<Seq<Cell>>, c: char, st: Option<usize>)
    requires
        h.len() >= 1,
    ensures
        append_char(a + h, c, st) == a + append_char(h, c, st),
{
    if c == '\n' {
        assert((a + h).push(seq![]) =~= a + h.push(seq![]));
    } else {
        let cell = Cell { style: st, character: c };
        let lhs = (a + h).update((a + h).len() - 1, (a + h).last().push(cell));
        let rhs = a + h.update(h.len() - 1, h.last().push(cell));
        assert((a + h).last() == h.last());
        assert forall|x: int| 0 <= x < lhs.len() implies lhs[x] == rhs[x] by {
            if x < a.len() {
                assert(lhs[x] == (a + h)[x]);
            } else if x < (a + h).len() - 1 {
                assert(lhs[x] == (a + h)[x]);
                assert(rhs[x] == h.update(h.len() - 1, h.last().push(cell))[x - a.len()]);
            }
        }
        assert(lhs =~= rhs);
    }
}

/// Appending text after some lines leaves them in front.
proof fn lemma_append_text_after(a: Seq<Seq<Cell>>, b: Seq<Seq<Cell>>, t: Seq<char>, st: Option<usize>)
    requires
        b.len() >= 1,
    ensures
        append_text(a + b, t, st) == a + append_text(b, t, st),
    decreases t.len(),
{
    if t.len() > 0 {
        lemma_append_text_after(a, b, t.drop_last(), st);
        lemma_count_append_text(b, t.drop_last(), st, 0);
        lemma_append_char_after(a, append_text(b, t.drop_last(), st), t.last(), st);
    }
}

/// What the replacement does to the counts: the removed cells go, the text
/// comes in unstyled.
proof fn lemma_replaced_counts(
    g: Seq<Seq<Cell>>,
    ls: int,
    le: int,
    cs: int,
    ce: int,
    t: Seq<char>,
    k: int,
)
    requires
        replace_error(g, ls, le, cs, ce) is None,
        0 <= ls,
        0 <= cs,
        0 <= ce,
    ensures
        count_grid(replaced(g, ls, le, cs, ce, t), has_key(k)) + removed(
            g,
            ls,
            le,
            cs,
            ce,
            le,
            has_key(k),
        ) == count_grid(g, has_key(k)),
        count_grid(replaced(g, ls, le, cs, ce, t), any_cell()) + removed(
            g,
            ls,
            le,
            cs,
            ce,
            le,
            any_cell(),
        ) == count_grid(g, any_cell()) + cells_in(t),
        replaced(g, ls, le, cs, ce, t).len() >= 1,
{
    let pre = first_line(g, ls, le).take(cs);
    let suf = last_line(g, ls, le).skip(ce);
    let start = seq![pre];
    let ins = append_text(start, t, None);
    lemma_count_append_text(start, t, None, k);
    let ins2 = ins.update(ins.len() - 1, ins.last() + suf);
    lemma_count_grid_update_last(ins, ins.last() + suf, has_key(k));
    lemma_count_grid_update_last(ins, ins.last() + suf, any_cell());
    lemma_count_cells_concat(ins.last(), suf, has_key(k));
    lemma_count_cells_concat(ins.last(), suf, any_cell());
    assert(start.drop_last() =~= Seq::<Seq<Cell>>::empty());
    assert(start.last() == pre);
    assert(count_grid(Seq::<Seq<Cell>>::empty(), has_key(k)) == 0);
    assert(count_grid(Seq::<Seq<Cell>>::empty(), any_cell()) == 0);
    assert(count_grid(start, has_key(k)) == count_cells(pre, has_key(k)));
    assert(count_grid(start, any_cell()) == count_cells(pre, any_cell()));
    assert(ins.len() >= 1);
    assert(replaced(g, ls, le, cs, ce, t) == g.take(ls) + ins2 + g.skip(le));
    assert(count_grid(ins2, has_key(k)) == count_cells(pre, has_key(k)) + count_cells(
        suf,
        has_key(k),
    ));
    assert(count_grid(ins2, any_cell()) == count_cells(pre, any_cell()) + cells_in(t)
        + count_cells(suf, any_cell()));
    lemma_count_grid_concat(g.take(ls) + ins2, g.skip(le), has_key(k));
    lemma_count_grid_concat(g.take(ls), ins2, has_key(k));
    lemma_count_grid_concat(g.take(ls) + ins2, g.skip(le), any_cell());
    lemma_count_grid_concat(g.take(ls), ins2, any_cell());
    lemma_grid_split(g, ls, le, has_key(k));
    lemma_grid_split(g, ls, le, any_cell());
    if ls < le {
        lemma_removed_lines(g, ls, le, cs, ce, le, has_key(k));
        lemma_removed_lines(g, ls, le, cs, ce, le, any_cell());
    } else {
        assert(g.subrange(ls, le) =~= Seq::<Seq<Cell>>::empty());
        assert(pre =~= Seq::<Cell>::empty());
        assert(suf =~= Seq::<Cell>::empty());
        lemma_count_cells_empty(has_key(k));
        lemma_count_cells_empty(any_cell());
    }
}

/// The cell that character `c` becomes with style key `st`.
pub open spec fn cell_of(c: char, st: Option<usize>) -> Cell {
    Cell { style: st, character: c }
}

/// The cells that text without line breaks writes, with style key `st`.
pub open spec fn text_cells(t: Seq<char>, st: Option<usize>) -> Seq<Cell>
    decreases t.len(),
{
    if t.len() == 0 {
        seq![]
    } else {
        text_cells(t.drop_last(), st).push(cell_of(t.last(), st))
    }
}

proof fn lemma_append_text_one_line(l: Seq<Cell>, t: Seq<char>)
    requires
        forall|i: int| 0 <= i < t.len() ==> t[i] != '\n',
    ensures
        append_text(seq![l], t, None) == seq![l + text_cells(t, None)],
    decreases t.len(),
{
    if t.len() == 0 {
        assert(text_cells(t, None) =~= Seq::<Cell>::empty());
        assert(l + text_cells(t, None) =~= l);
    } else {
        lemma_append_text_one_line(l, t.drop_last());
        let cell = Cell { style: None, character: t.last() };
        let prev = l + text_cells(t.drop_last(), None);
        assert(text_cells(t, None) == text_cells(t.drop_last(), None).push(cell));
        assert(prev.push(cell) =~= l + text_cells(t.drop_last(), None).push(cell));
        assert(seq![prev].update(0, prev.push(cell)) =~= seq![l + text_cells(t, None)]);
    }
}

/// Replacing columns `cs..ce` of one line by text without line breaks keeps
/// the cells before `cs` and from `ce` on, puts the text's unstyled cells
/// between them and leaves every other line as it was; the cells removed are
/// those of columns `cs..ce` (none when `cs == ce`).
pub proof fn lemma_replace_in_line(
    g: Seq<Seq<Cell>>,
    ls: int,
    cs: int,
    ce: int,
    t: Seq<char>,
    p: spec_fn(Cell) -> bool,
)
    requires
        0 <= ls < g.len(),
        0 <= cs <= ce <= g[ls].len(),
        forall|i: int| 0 <= i < t.len() ==> t[i] != '\n',
    ensures
        replace_error(g, ls, ls + 1, cs, ce) is None,
        replaced(g, ls, ls + 1, cs, ce, t) == g.update(
            ls,
            g[ls].take(cs) + text_cells(t, None) + g[ls].skip(ce),
        ),
        removed(g, ls, ls + 1, cs, ce, ls + 1, p) == count_cells(g[ls].subrange(cs, ce), p),
        cs == ce ==> removed(g, ls, ls + 1, cs, ce, ls + 1, p) == 0,
{
    lemma_append_text_one_line(g[ls].take(cs), t);
    let ins = seq![g[ls].take(cs) + text_cells(t, None)];
    assert(ins.update(0, ins.last() + g[ls].skip(ce)) =~= seq![
        g[ls].take(cs) + text_cells(t, None) + g[ls].skip(ce),
    ]);
    assert(g.take(ls) + seq![g[ls].take(cs) + text_cells(t, None) + g[ls].skip(ce)] + g.skip(ls + 1)
        =~= g.update(ls, g[ls].take(cs) + text_cells(t, None) + g[ls].skip(ce)));
    assert(removed(g, ls, ls + 1, cs, ce, ls, p) == 0);
    if cs == ce {
        assert(g[ls].subrange(cs, ce) =~= Seq::<Cell>::empty());
        lemma_count_cells_empty(p);
    }
}

/// Plain texts appended one after the other.
pub open spec fn append_texts(g: Seq<Seq<Cell>>, ts: Seq<Seq<char>>) -> Seq<Seq<Cell>>
    decreases ts.len(),
{
    if ts.len() == 0 {
        g
    } else {
        append_text(append_texts(g, ts.drop_last()), ts.last(), None)
    }
}

/// The texts one after the other.
pub open spec fn concat_texts(ts: Seq<Seq<char>>) -> Seq<char>
    decreases ts.len(),
{
    if ts.len() == 0 {
        seq![]
    } else {
        concat_texts(ts.drop_last()) + ts.last()
    }
}

proof fn lemma_append_texts_plain(t: Entries, ts: Seq<Seq<char>>)
    ensures
        append_texts(seq![Seq::<Cell>::empty()], ts).len() >= 1,
        unstyled(append_texts(seq![Seq::<Cell>::empty()], ts)),
        render_spec(t, append_texts(seq![Seq::<Cell>::empty()], ts)) == concat_texts(ts),
    decreases ts.len(),
{
    let g0 = seq![Seq::<Cell>::empty()];
    if ts.len() == 0 {
        lemma_render_unstyled(t, g0);
        assert(line_chars(Seq::<Cell>::empty()) =~= Seq::<char>::empty());
    } else {
        lemma_append_texts_plain(t, ts.drop_last());
        let g = append_texts(g0, ts.drop_last());
        lemma_render_plain_append(t, g, ts.last());
        lemma_count_append_text(g, ts.last(), None, 0);
    }
}

/// A grid that starts empty and is given only plain text renders as the
/// texts one after the other, line breaks kept, with nothing added.
pub proof fn lemma_render_plain_pushes(t: Entries, ts: Seq<Seq<char>>)
    ensures
        render_spec(t, append_texts(seq![Seq::<Cell>::empty()], ts)) == concat_texts(ts),
{
    lemma_append_texts_plain(t, ts);
}

/// A cell of the grid is counted by every predicate it satisfies.
proof fn lemma_count_grid_cell(g: Seq<Seq<Cell>>, i: int, j: int, p: spec_fn(Cell) -> bool)
    requires
        0 <= i < g.len(),
        0 <= j < g[i].len(),
        p(g[i][j]),
    ensures
        count_grid(g, p) >= 1,
{
    lemma_grid_split(g, i, i + 1, p);
    let sub = g.subrange(i, i + 1);
    assert(sub.drop_last() =~= Seq::<Seq<Cell>>::empty());
    assert(count_grid(Seq::<Seq<Cell>>::empty(), p) == 0);
    assert(sub.last() == g[i]);
    lemma_split_line(g[i], j, j + 1, p);
    let one = g[i].subrange(j, j + 1);
    assert(one.drop_last() =~= Seq::<Cell>::empty());
    lemma_count_cells_empty(p);
    assert(one.last() == g[i][j]);
}

/// The lines of a vector of cell vectors.
pub open spec fn lines_view(v: Seq<Vec<Cell>>) -> Seq<Seq<Cell>> {
    Seq::new(v.len(), |i: int| v[i]@)
}

/// A grid of styled characters with the table of its styles.
pub struct TerminalBuffer {
    lines: Vec<Vec<Cell>>,
    styles: StyleTable,
    cells: usize,
}

impl TerminalBuffer {
    /// The lines of cells.
    pub closed spec fn grid(&self) -> Seq<Seq<Cell>> {
        lines_view(self.lines@)
    }

    /// The style table's slots.
    pub closed spec fn table(&self) -> Entries {
        self.styles@
    }

    /// At least one line; every reference count equal to the number of cells
    /// that hold the key; every held style printable; the cell count kept.
    pub closed spec fn wf(&self) -> bool {
        &&& self.lines@.len() >= 1
        &&& self.styles.wf()
        &&& self.cells == count_grid(self.grid(), any_cell())
        &&& forall|k: int| #[trigger] refs_in(self.styles@, k) == count_grid(self.grid(), has_key(k))
        &&& forall|k: int| #[trigger] is_live(self.styles@, k) ==> style_wf(self.styles@[k]->0.style)
    }

    /// In a well-formed buffer the table is well formed, every key's count is
    /// the number of cells that hold it, and every key found in a cell is
    /// held by the table with at least one reference.
    pub proof fn lemma_refs_count_cells(&self)
        requires
            self.wf(),
        ensures
            entries_wf(self.table()),
            forall|k: int| #[trigger] refs_in(self.table(), k) == count_grid(self.grid(), has_key(k)),
            forall|i: int, j: int|
                0 <= i < self.grid().len() && 0 <= j < self.grid()[i].len() && (#[trigger] self.grid()[i][j]).style is Some
                    ==> is_live(self.table(), self.grid()[i][j].style->0 as int)
                    && self.table()[self.grid()[i][j].style->0 as int]->0.refs >= 1,
    {
        let g = self.grid();
        assert forall|i: int, j: int|
            0 <= i < g.len() && 0 <= j < g[i].len() && (#[trigger] g[i][j]).style is Some implies is_live(self.table(), g[i][j].style->0 as int)
                && self.table()[g[i][j].style->0 as int]->0.refs >= 1 by {
            let k = g[i][j].style->0 as int;
            lemma_count_grid_cell(g, i, j, has_key(k));
            assert(refs_in(self.styles@, k) == count_grid(g, has_key(k)));
        }
    }

    /// The number of cells in the grid.
    pub closed spec fn cell_total(&self) -> nat {
        count_grid(self.grid(), any_cell())
    }

    /// A grid of one empty line, with no styles.
    pub fn new() -> (r: TerminalBuffer)
        ensures
            r.wf(),
            r.grid() == seq![Seq::<Cell>::empty()],
            r.table() == Seq::<Option<crate::terminal::table::Entry>>::empty(),
            r.cell_total() == 0,
            forall|k: int| #[trigger] refs_in(r.table(), k) == count_grid(r.grid(), has_key(k)),
    {
        let mut lines: Vec<Vec<Cell>> = Vec::new();
        lines.push(Vec::new());
        let r = TerminalBuffer { lines, styles: StyleTable::new(), cells: 0 };
        assert(r.grid() =~= seq![Seq::<Cell>::empty()]);
        proof {
            let g = r.grid();
            assert(g.drop_last() =~= Seq::<Seq<Cell>>::empty());
            assert forall|k: int| #[trigger] refs_in(r.styles@, k) == count_grid(g, has_key(k)) by {
                assert(count_grid(g.drop_last(), has_key(k)) == 0);
                assert(count_cells(g.last(), has_key(k)) == 0);
            }
            assert(count_grid(g.drop_last(), any_cell()) == 0);
            assert(count_cells(g.last(), any_cell()) == 0);
        }
        r
    }

    /// Writes `text` with style key `style`, leaving the table as it is.
    fn append(&mut self, text: &str, style: Option<usize>)
        requires
            old(self).lines@.len() >= 1,
            old(self).cells + text@.len() <= usize::MAX,
        ensures
            final(self).grid() == append_text(old(self).grid(), text@, style),
            final(self).cells == old(self).cells + cells_in(text@),
            final(self).styles == old(self).styles,
            final(self).lines@.len() >= 1,
    {
        let ghost g0 = self.grid();
        let mut line = self.lines.pop().unwrap();
        assert(lines_view(self.lines@).push(line@) =~= g0);
        let ghost mut done: Seq<char> = seq![];
        for c in it: text.chars()
            invariant
                done == it.seq().take(it.index() as int),
                lines_view(self.lines@).push(line@) == append_text(
                    g0,
                    it.seq().take(it.index() as int),
                    style,
                ),
                self.cells == old(self).cells + cells_in(it.seq().take(it.index() as int)),
                cells_in(it.seq().take(it.index() as int)) <= it.index(),
                it.seq() == text@,
                old(self).cells + text@.len() <= usize::MAX,
                self.styles == old(self).styles,
        {
            let ghost next = it.seq().take(it.index() + 1);
            assert(next.drop_last() =~= done);
            let ghost before = lines_view(self.lines@).push(line@);
            if c == '\n' {
                self.lines.push(line);
                line = Vec::new();
                assert(lines_view(self.lines@).push(line@) =~= before.push(seq![]));
            } else {
                line.push(Cell { style, character: c });
                self.cells = self.cells + 1;
                assert(lines_view(self.lines@).push(line@) =~= before.update(
                    before.len() - 1,
                    before.last().push(Cell { style, character: c }),
                ));
            }
            proof {
                done = done.push(c);
            }
        }
        assert(done =~= text@);
        self.lines.push(line);
    }

    /// Appends plain text: line breaks start new lines, every other character
    /// becomes an unstyled cell at the end of the last line.
    pub fn push(&mut self, text: &str)
        requires
            old(self).wf(),
            old(self).cell_total() + text@.len() <= usize::MAX,
        ensures
            final(self).wf(),
            final(self).grid() == append_text(old(self).grid(), text@, None),
            final(self).table() == old(self).table(),
            final(self).cell_total() == old(self).cell_total() + cells_in(text@),
            forall|k: int| #[trigger] refs_in(final(self).table(), k) == count_grid(final(self).grid(), has_key(k)),
    {
        let ghost g0 = self.grid();
        self.append(text, None);
        proof {
            assert forall|k: int| #[trigger] refs_in(self.styles@, k) == count_grid(
                self.grid(),
                has_key(k),
            ) by {
                lemma_count_append_text(g0, text@, None, k);
            }
            lemma_count_append_text(g0, text@, None, 0);
        }
    }

    /// Appends text in `style`: the style is interned once, with one reference
    /// per cell written, and every cell written holds its key. Text that
    /// writes no cell (empty, or line breaks only) leaves the table as it is.
    pub fn push_styled(&mut self, style: Style, text: &str)
        requires
            old(self).wf(),
            style_wf(style@),
            old(self).cell_total() + text@.len() <= usize::MAX,
        ensures
            final(self).wf(),
            final(self).cell_total() == old(self).cell_total() + cells_in(text@),
            forall|k: int| #[trigger] refs_in(final(self).table(), k) == count_grid(final(self).grid(), has_key(k)),
            cells_in(text@) == 0 ==> final(self).grid() == append_text(old(self).grid(), text@, None)
                && final(self).table() == old(self).table(),
            cells_in(text@) > 0 ==> ({
                let (t, k) = intern_spec(old(self).table(), style@, cells_in(text@));
                &&& final(self).table() == t
                &&& final(self).grid() == append_text(
                    old(self).grid(),
                    text@,
                    Some(k as usize),
                )
            }),
    {
        let ghost g0 = self.grid();
        let ghost t0 = self.styles@;
        let n = count_cells_in(text);
        if n == 0 {
            self.push(text);
            return;
        }
        proof {
            lemma_cells_in_le(text@);
            assert forall|k: int|
                #[trigger] is_live(self.styles@, k) && self.styles@[k]->0.style == style@ implies self.styles@[k]->0.refs
                + n <= usize::MAX by {
                assert(refs_in(self.styles@, k) == count_grid(g0, has_key(k)));
                lemma_count_grid_le(g0, has_key(k));
            }
            lemma_intern_refs(t0, style@, n as nat);
        }
        let key = self.styles.intern_counted(style, n);
        self.append(text, Some(key));
        proof {
            let t1 = self.styles@;
            assert forall|k: int| #[trigger] refs_in(t1, k) == count_grid(self.grid(), has_key(k)) by {
                lemma_count_append_text(g0, text@, Some(key), k);
                assert(refs_in(t0, k) == count_grid(g0, has_key(k)));
            }
            assert forall|k: int| #[trigger] is_live(t1, k) implies style_wf(t1[k]->0.style) by {
                if k != key as int {
                    assert(t1[k] == t0[k]);
                }
            }
            lemma_count_append_text(g0, text@, Some(key), 0);
        }
    }

    /// The grid as text: escape sequences only where the style changes from
    /// one cell to the next, lines joined by line breaks, and a final reset of
    /// the style still active.
    #[verifier::spinoff_prover]
    #[verifier::rlimit(40)]
    pub fn render(&self) -> (r: String)
        requires
            self.wf(),
        ensures
            r@ == render_spec(self.table(), self.grid()),
    {
        let ghost t = self.table();
        let ghost g = self.grid();
        let plain = Style::builder();
        let mut out = String::new();
        let mut cur: &Style = &plain;
        let mut i: usize = 0;
        assert(g.take(0) =~= Seq::<Seq<Cell>>::empty());
        while i < self.lines.len()
            invariant
                self.wf(),
                t == self.table(),
                g == self.grid(),
                i <= g.len(),
                plain@ == plain_style(),
                style_wf(cur@),
                i == 0 ==> out@ == Seq::<char>::empty() && cur@ == plain_style(),
                i > 0 ==> (out@, cur@) == render_rows(t, g.take(i as int)),
            decreases g.len() - i,
        {
            if i > 0 {
                out.push('\n');
            }
            let line = &self.lines[i];
            let ghost base = out@;
            let ghost start = cur@;
            let mut j: usize = 0;
            assert(line@.take(0) =~= Seq::<Cell>::empty());
            while j < line.len()
                invariant
                    self.wf(),
                    t == self.table(),
                    line@ == g[i as int],
                    j <= line@.len(),
                    plain@ == plain_style(),
                    style_wf(cur@),
                    out@ == base + render_cells(t, line@.take(j as int), start).0,
                    cur@ == render_cells(t, line@.take(j as int), start).1,
                decreases line@.len() - j,
            {
                let cell = line[j];
                let st: &Style = match cell.style {
                    Some(k) => match self.styles.resolve(k) {
                        Ok(s) => s,
                        Err(_) => &plain,
                    },
                    None => &plain,
                };
                proof {
                    assert(line@.take(j + 1).drop_last() =~= line@.take(j as int));
                    assert(st@ == cell_style(t, cell));
                    if st@ != plain_style() {
                        assert(is_live(t, cell.style->0 as int));
                    }
                }
                if !st.equals(cur) {
                    let off = cur.reset_sequence();
                    push_all(&mut out, off.as_str());
                    let on = st.sequence();
                    push_all(&mut out, on.as_str());
                    cur = st;
                }
                out.push(cell.character);
                j = j + 1;
                assert(out@ =~= base + render_cells(t, line@.take(j as int), start).0);
            }
            assert(line@.take(j as int) =~= line@);
            proof {
                assert(g.take(i + 1).drop_last() =~= g.take(i as int));
                if i == 0 {
                    assert(out@ =~= render_cells(t, g[0], plain_style()).0);
                } else {
                    assert(out@ =~= render_rows(t, g.take(i + 1)).0);
                }
            }
            i = i + 1;
        }
        assert(g.take(i as int) =~= g);
        let off = cur.reset_sequence();
        push_all(&mut out, off.as_str());
        out
    }

    /// Replaces lines `lines`, from column `columns.start` of the first to
    /// column `columns.end` of the last, by `text` as unstyled cells; the cells
    /// removed give up their style references. An empty line range inserts the
    /// lines of `text` before line `lines.start` (its column range must then be
    /// `0..0`). Fails, changing nothing, with `InvalidRange` when a range starts
    /// after its end, and with `OutOfBounds` when it reaches past the lines or
    /// past the addressed line.
    pub fn replace(
        &mut self,
        lines: std::ops::Range<usize>,
        columns: std::ops::Range<usize>,
        text: &str,
    ) -> (r: Result<(), Error>)
        requires
            old(self).wf(),
            old(self).cell_total() + text@.len() <= usize::MAX,
        ensures
            final(self).wf(),
            ({
                let e = replace_error(
                    old(self).grid(),
                    lines.start as int,
                    lines.end as int,
                    columns.start as int,
                    columns.end as int,
                );
                &&& e is None ==> r is Ok && final(self).grid() == replaced(
                    old(self).grid(),
                    lines.start as int,
                    lines.end as int,
                    columns.start as int,
                    columns.end as int,
                    text@,
                )
                &&& e matches Some(err) ==> r == Err::<(), Error>(err) && final(self).grid()
                    == old(self).grid() && final(self).table() == old(self).table()
            }),
            forall|k: int| #[trigger]
                is_live(final(self).table(), k) ==> is_live(old(self).table(), k)
                    && final(self).table()[k]->0.style == old(self).table()[k]->0.style,
            final(self).cell_total() <= old(self).cell_total() + cells_in(text@),
            forall|k: int| #[trigger] refs_in(final(self).table(), k) == count_grid(final(self).grid(), has_key(k)),
            final(self).table().len() == old(self).table().len(),
            forall|k: int|
                0 <= k < old(self).table().len() && old(self).table()[k] is None
                    ==> #[trigger] final(self).table()[k] is None,
            r is Ok ==> forall|k: int|
                #[trigger] refs_in(final(self).table(), k) + removed(
                    old(self).grid(),
                    lines.start as int,
                    lines.end as int,
                    columns.start as int,
                    columns.end as int,
                    lines.end as int,
                    has_key(k),
                ) == refs_in(old(self).table(), k),
            r is Ok && (forall|k: int|
                #[trigger] removed(
                    old(self).grid(),
                    lines.start as int,
                    lines.end as int,
                    columns.start as int,
                    columns.end as int,
                    lines.end as int,
                    has_key(k),
                ) == 0) ==> final(self).table() == old(self).table(),
    {
        let ls = lines.start;
        let le = lines.end;
        let cs = columns.start;
        let ce = columns.end;
        let ghost g = self.grid();
        let ghost t0 = self.table();
        if ls > le || cs > ce {
            return Err(Error::InvalidRange);
        }
        if le > self.lines.len() {
            return Err(Error::OutOfBounds);
        }
        let first_len = if ls < le {
            self.lines[ls].len()
        } else {
            0
        };
        let last_len = if ls < le {
            self.lines[le - 1].len()
        } else {
            0
        };
        if cs > first_len || ce > last_len {
            return Err(Error::OutOfBounds);
        }
        assert(replace_error(g, ls as int, le as int, cs as int, ce as int) is None);
        // Give up the references of the removed cells.
        let mut i: usize = ls;
        while i < le
            invariant
                replace_error(g, ls as int, le as int, cs as int, ce as int) is None,
                ls <= i <= le,
                g == self.grid(),
                self.lines@.len() >= 1,
                self.styles.wf(),
                self.cells + removed(g, ls as int, le as int, cs as int, ce as int, i as int, any_cell())
                    == count_grid(g, any_cell()),
                forall|k: int|
                    #[trigger] refs_in(self.styles@, k) + removed(
                        g,
                        ls as int,
                        le as int,
                        cs as int,
                        ce as int,
                        i as int,
                        has_key(k),
                    ) == count_grid(g, has_key(k)),
                forall|k: int| #[trigger]
                    is_live(self.styles@, k) ==> is_live(t0, k) && self.styles@[k]->0.style
                        == t0[k]->0.style,
                self.styles@.len() == t0.len(),
                forall|k: int|
                    0 <= k < t0.len() && t0[k] is None ==> #[trigger] self.styles@[k] is None,
                t0 == old(self).styles@,
            decreases le - i,
        {
            let a: usize = if i == ls {
                cs
            } else {
                0
            };
            let b: usize = if i + 1 == le {
                ce
            } else {
                self.lines[i].len()
            };
            let ghost gi = g[i as int];
            let mut j: usize = a;
            assert(gi.subrange(a as int, a as int) =~= Seq::<Cell>::empty());
            while j < b
                invariant
                    replace_error(g, ls as int, le as int, cs as int, ce as int) is None,
                    ls <= i < le,
                    a == cut_start(ls as int, cs as int, i as int),
                    b == cut_end(g, le as int, ce as int, i as int),
                    a <= j <= b,
                    gi == g[i as int],
                    g == self.grid(),
                    self.lines@.len() >= 1,
                    self.styles.wf(),
                    self.cells + removed(g, ls as int, le as int, cs as int, ce as int, i as int, any_cell())
                        + count_cells(gi.subrange(a as int, j as int), any_cell()) == count_grid(
                        g,
                        any_cell(),
                    ),
                    forall|k: int|
                        #[trigger] refs_in(self.styles@, k) + removed(
                            g,
                            ls as int,
                            le as int,
                            cs as int,
                            ce as int,
                            i as int,
                            has_key(k),
                        ) + count_cells(gi.subrange(a as int, j as int), has_key(k)) == count_grid(
                            g,
                            has_key(k),
                        ),
                    forall|k: int| #[trigger]
                        is_live(self.styles@, k) ==> is_live(t0, k) && self.styles@[k]->0.style
                            == t0[k]->0.style,
                    self.styles@.len() == t0.len(),
                    forall|k: int|
                        0 <= k < t0.len() && t0[k] is None ==> #[trigger] self.styles@[k] is None,
                decreases b - j,
            {
                let cell = self.lines[i][j];
                proof {
                    assert(cell == gi[j as int]);
                    assert(gi.subrange(a as int, j + 1).drop_last() =~= gi.subrange(
                        a as int,
                        j as int,
                    ));
                    lemma_removed_bound(g, ls as int, le as int, cs as int, ce as int, i as int, j as int, any_cell());
                }
                if let Some(key) = cell.style {
                    proof {
                        lemma_removed_bound(
                            g,
                            ls as int,
                            le as int,
                            cs as int,
                            ce as int,
                            i as int,
                            j as int,
                            has_key(key as int),
                        );
                        assert(refs_in(self.styles@, key as int) >= 1);
                    }
                    let ghost before = self.styles@;
                    let _ = self.styles.release(key);
                    proof {
                        assert forall|k: int|
                            #[trigger] refs_in(self.styles@, k) + removed(
                                g,
                                ls as int,
                                le as int,
                                cs as int,
                                ce as int,
                                i as int,
                                has_key(k),
                            ) + count_cells(gi.subrange(a as int, j + 1), has_key(k)) == count_grid(
                                g,
                                has_key(k),
                            ) by {
                            assert(refs_in(before, k) + removed(
                                g,
                                ls as int,
                                le as int,
                                cs as int,
                                ce as int,
                                i as int,
                                has_key(k),
                            ) + count_cells(gi.subrange(a as int, j as int), has_key(k))
                                == count_grid(g, has_key(k)));
                        }
                        assert forall|k: int| #[trigger] is_live(self.styles@, k) implies is_live(
                            t0,
                            k,
                        ) && self.styles@[k]->0.style == t0[k]->0.style by {
                            assert(is_live(before, k));
                        }
                    }
                } else {
                    proof {
                        assert forall|k: int|
                            #[trigger] refs_in(self.styles@, k) + removed(
                                g,
                                ls as int,
                                le as int,
                                cs as int,
                                ce as int,
                                i as int,
                                has_key(k),
                            ) + count_cells(gi.subrange(a as int, j + 1), has_key(k)) == count_grid(
                                g,
                                has_key(k),
                            ) by {
                            assert(refs_in(self.styles@, k) + removed(
                                g,
                                ls as int,
                                le as int,
                                cs as int,
                                ce as int,
                                i as int,
                                has_key(k),
                            ) + count_cells(gi.subrange(a as int, j as int), has_key(k))
                                == count_grid(g, has_key(k)));
                        }
                    }
                }
                self.cells = self.cells - 1;
                j = j + 1;
            }
            proof {
                assert(removed(g, ls as int, le as int, cs as int, ce as int, i + 1, any_cell())
                    == removed(g, ls as int, le as int, cs as int, ce as int, i as int, any_cell())
                    + count_cells(gi.subrange(a as int, b as int), any_cell()));
            }
            i = i + 1;
        }
        // Splice: kept prefix, the text, kept suffix.
        let mut prefix: Vec<Cell> = Vec::new();
        let mut suffix: Vec<Cell> = Vec::new();
        if ls < le {
            let mut j: usize = 0;
            while j < cs
                invariant
                    j <= cs,
                    ls < le <= self.lines@.len(),
                    cs <= self.lines@[ls as int]@.len(),
                    prefix@ == self.lines@[ls as int]@.take(j as int),
                decreases cs - j,
            {
                prefix.push(self.lines[ls][j]);
                j = j + 1;
                assert(prefix@ =~= self.lines@[ls as int]@.take(j as int));
            }
            let n = self.lines[le - 1].len();
            let mut j: usize = ce;
            assert(suffix@ =~= self.lines@[le - 1]@.subrange(ce as int, ce as int));
            while j < n
                invariant
                    ce <= j <= n,
                    ls < le <= self.lines@.len(),
                    n == self.lines@[le - 1]@.len(),
                    suffix@ == self.lines@[le - 1]@.subrange(ce as int, j as int),
                decreases n - j,
            {
                suffix.push(self.lines[le - 1][j]);
                j = j + 1;
                assert(suffix@ =~= self.lines@[le - 1]@.subrange(ce as int, j as int));
            }
        }
        assert(prefix@ == first_line(g, ls as int, le as int).take(cs as int));
        assert(suffix@ =~= last_line(g, ls as int, le as int).skip(ce as int));
        let mut tail = self.lines.split_off(le);
        self.lines.truncate(ls);
        self.lines.push(prefix);
        proof {
            assert(lines_view(tail@) =~= g.skip(le as int));
            assert(lines_view(self.lines@) =~= g.take(ls as int) + seq![prefix@]);
        }
        let ghost suf = suffix@;
        let ghost ins = append_text(seq![prefix@], text@, None);
        self.append(text, None);
        proof {
            lemma_append_text_after(g.take(ls as int), seq![prefix@], text@, None);
            lemma_count_append_text(seq![prefix@], text@, None, 0);
            assert(lines_view(self.lines@) == g.take(ls as int) + ins);
        }
        let ghost before = self.lines@;
        let mut last = self.lines.pop().unwrap();
        proof {
            assert(ins.len() >= 1);
            assert(last == before.last());
            assert(lines_view(before).last() == before.last()@);
            assert(last@ == ins.last());
            assert(self.lines@ == before.drop_last());
            assert(lines_view(before.drop_last()) =~= lines_view(before).drop_last());
            assert((g.take(ls as int) + ins).drop_last() =~= g.take(ls as int) + ins.drop_last());
            assert(lines_view(self.lines@) =~= g.take(ls as int) + ins.drop_last());
        }
        last.append(&mut suffix);
        let ghost mid = self.lines@;
        self.lines.push(last);
        proof {
            assert(lines_view(mid.push(last)) =~= lines_view(mid).push(last@));
            assert(last@ == ins.last() + suf);
            assert(ins.drop_last().push(ins.last() + suf) =~= ins.update(ins.len() - 1, ins.last() + suf));
            assert(lines_view(self.lines@) =~= g.take(ls as int) + ins.update(
                ins.len() - 1,
                ins.last() + suf,
            ));
        }
        self.lines.append(&mut tail);
        proof {
            assert(lines_view(self.lines@) =~= replaced(
                g,
                ls as int,
                le as int,
                cs as int,
                ce as int,
                text@,
            ));
            assert forall|k: int| #[trigger] refs_in(self.styles@, k) == count_grid(self.grid(), has_key(k)) by {
                lemma_replaced_counts(g, ls as int, le as int, cs as int, ce as int, text@, k);
            }
            lemma_replaced_counts(g, ls as int, le as int, cs as int, ce as int, text@, 0);
            assert forall|k: int|
                #[trigger] refs_in(self.styles@, k) + removed(
                    g,
                    ls as int,
                    le as int,
                    cs as int,
                    ce as int,
                    le as int,
                    has_key(k),
                ) == refs_in(t0, k) by {
                lemma_replaced_counts(g, ls as int, le as int, cs as int, ce as int, text@, k);
                assert(refs_in(t0, k) == count_grid(g, has_key(k)));
            }
            if forall|k: int|
                #[trigger] removed(
                    g,
                    ls as int,
                    le as int,
                    cs as int,
                    ce as int,
                    le as int,
                    has_key(k),
                ) == 0 {
                assert forall|k: int| 0 <= k < t0.len() implies self.styles@[k] == t0[k] by {
                    assert(removed(g, ls as int, le as int, cs as int, ce as int, le as int, has_key(k)) == 0);
                    if t0[k] is Some {
                        assert(is_live(t0, k));
                        assert(refs_in(self.styles@, k) == refs_in(t0, k));
                        assert(is_live(self.styles@, k));
                    }
                }
                assert(self.styles@ =~= t0);
            }
            assert forall|k: int| #[trigger] is_live(self.styles@, k) implies style_wf(
                self.styles@[k]->0.style,
            ) by {
                assert(is_live(t0, k));
            }
        }
        Ok(())
    }

    /// The number of cells in the grid.
    pub fn cell_count(&self) -> (r: usize)
        requires
            self.wf(),
        ensures
            r == self.cell_total(),
    {
        self.cells
    }

    /// The lines of cells.
    pub fn lines(&self) -> (r: &Vec<Vec<Cell>>)
        ensures
            lines_view(r@) == self.grid(),
    {
        &self.lines
    }

    /// The style table.
    pub fn styles(&self) -> (r: &StyleTable)
        requires
            self.wf(),
        ensures
            r.wf(),
            r@ == self.table(),
    {
        &self.styles
    }
}

/// The number of characters of `text` that are not line breaks.
pub fn count_cells_in(text: &str) -> (n: usize)
    ensures
        n == cells_in(text@),
{
    let len = text.unicode_len();
    let mut n: usize = 0;
    let ghost mut done: Seq<char> = seq![];
    for c in it: text.chars()
        invariant
            done == it.seq().take(it.index() as int),
            n == cells_in(it.seq().take(it.index() as int)),
            n <= it.index(),
            it.seq() == text@,
            len == text@.len(),
    {
        let ghost next = it.seq().take(it.index() + 1);
        assert(next.drop_last() =~= it.seq().take(it.index() as int));
        if c != '\n' {
            n = n + 1;
        }
        proof {
            done = done.push(c);
        }
    }
    assert(done =~= text@);
    n
}

} // verus!
