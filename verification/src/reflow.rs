//! What rewrapping rows to a new width gives, stated over sequences of lines.
use crate::cell::Cell;
use crate::row::{blanks, Line};
use vstd::prelude::*;

verus! {

/// The number of wrapped lines at the start of `s`.
pub open spec fn lead_wrapped(s: Seq<Line>) -> nat
    decreases s.len(),
{
    if s.len() > 0 && s[0].wrapped {
        1 + lead_wrapped(s.drop_first())
    } else {
        0
    }
}

/// The logical lines of `s`, each a line that is not wrapped followed by the
/// wrapped lines that continue it. Wrapped lines at the very start continue
/// nothing and belong to no group.
pub open spec fn groups(s: Seq<Line>) -> Seq<Seq<Line>>
    decreases s.len(),
{
    let t = s.skip(lead_wrapped(s) as int);
    if t.len() == 0 {
        Seq::empty()
    } else {
        let g = 1 + lead_wrapped(t.drop_first());
        proof {
            lemma_lead_wrapped(s);
            lemma_lead_wrapped(t.drop_first());
        }
        seq![t.take(g as int)] + groups(t.skip(g as int))
    }
}

/// `s` without the empty cells at its end.
pub open spec fn trim_empty(s: Seq<Cell>) -> Seq<Cell>
    decreases s.len(),
{
    if s.len() > 0 && s.last() is Empty {
        trim_empty(s.drop_last())
    } else {
        s
    }
}

/// `s` without the empty cells at its end, but keeping at least `n` cells.
pub open spec fn trim_to(s: Seq<Cell>, n: nat) -> Seq<Cell>
    decreases s.len(),
{
    if s.len() > n && s.last() is Empty {
        trim_to(s.drop_last(), n)
    } else {
        s
    }
}

/// The cells of the lines of `g`, one after the other.
pub open spec fn concat_cells(g: Seq<Line>) -> Seq<Cell> {
    g.map_values(|l: Line| l.cells).flatten()
}

/// The text of a logical line: the cells of its lines, the empty cells at the
/// end of its last line dropped. A line that stands alone loses only the
/// empty cells beyond `cols`.
pub open spec fn content(g: Seq<Line>, cols: nat) -> Seq<Cell> {
    if g.len() > 1 {
        concat_cells(g.drop_last()) + trim_empty(g.last().cells)
    } else {
        trim_to(g[0].cells, cols)
    }
}

/// `s` cut into pieces of `n` items, the last piece holding what is left.
pub open spec fn chunks_of<A>(s: Seq<A>, n: nat) -> Seq<Seq<A>>
    decreases s.len(),
{
    if s.len() == 0 || n == 0 {
        Seq::empty()
    } else if s.len() <= n {
        seq![s]
    } else {
        seq![s.take(n as int)] + chunks_of(s.skip(n as int), n)
    }
}

/// `s` filled up to `cols` cells with `blank`.
pub open spec fn pad(s: Seq<Cell>, cols: nat, blank: Cell) -> Seq<Cell> {
    if s.len() < cols {
        s + blanks(blank, (cols - s.len()) as nat)
    } else {
        s
    }
}

/// The lines that show the cells `x` at width `cols`: every line but the
/// first continues the one before it, and the last is filled up with `blank`.
pub open spec fn chunk_lines(x: Seq<Cell>, cols: nat, blank: Cell) -> Seq<Line> {
    let c = chunks_of(x, cols);
    Seq::new(
        c.len(),
        |j: int|
            Line {
                cells: if j == c.len() - 1 {
                    pad(c[j], cols, blank)
                } else {
                    c[j]
                },
                wrapped: j != 0,
            },
    )
}

/// The lines that show the logical line `g` at width `cols`.
pub open spec fn reflow_group(g: Seq<Line>, cols: nat, blank: Cell) -> Seq<Line> {
    let x = content(g, cols);
    if g.len() == 1 && x.len() <= cols {
        seq![Line { cells: pad(x, cols, blank), wrapped: false }]
    } else {
        chunk_lines(x, cols, blank)
    }
}

/// The lines of `s` rewrapped to width `cols`, logical line by logical line;
/// wrapped lines that continue nothing are dropped.
pub open spec fn reflow(s: Seq<Line>, cols: nat, blank: Cell) -> Seq<Line> {
    groups(s).map_values(|g: Seq<Line>| reflow_group(g, cols, blank)).flatten()
}

/// Rewrapping the logical line `g` to width `cols` is possible: a width of
/// zero is never needed to cut text, and text that has to be cut is not empty.
pub open spec fn group_ok(g: Seq<Line>, cols: nat) -> bool {
    (g.len() > 1 || content(g, cols).len() > cols) ==> (cols > 0 && content(g, cols).len() > 0)
}

/// The logical line that starts with the line `i` of `s`.
pub open spec fn group_at(s: Seq<Line>, i: int) -> Seq<Line> {
    s.subrange(i, i + 1 + lead_wrapped(s.skip(i + 1)))
}

/// Every logical line of `s` can be rewrapped to width `cols`.
pub open spec fn reflow_ok(s: Seq<Line>, cols: nat) -> bool {
    forall|i: int| 0 <= i < s.len() && !s[i].wrapped ==> group_ok(#[trigger] group_at(s, i), cols)
}

/// Whether every cell of the line is empty.
pub open spec fn all_empty(l: Line) -> bool {
    forall|k: int| 0 <= k < l.cells.len() ==> (#[trigger] l.cells[k]) is Empty
}

/// `v` without the lines of empty cells at its end, but keeping at least `n` lines.
pub open spec fn trim_blank_lines(v: Seq<Line>, n: nat) -> Seq<Line>
    decreases v.len(),
{
    if v.len() > n && all_empty(v.last()) {
        trim_blank_lines(v.drop_last(), n)
    } else {
        v
    }
}

/// The last `n` lines of `s`, or all of them when there are fewer.
pub open spec fn keep_last(s: Seq<Line>, n: nat) -> Seq<Line> {
    if s.len() > n {
        s.skip(s.len() - n)
    } else {
        s
    }
}

pub proof fn lemma_lead_wrapped(s: Seq<Line>)
    ensures
        lead_wrapped(s) <= s.len(),
        forall|i: int| 0 <= i < lead_wrapped(s) ==> (#[trigger] s[i]).wrapped,
        lead_wrapped(s) < s.len() ==> !s[lead_wrapped(s) as int].wrapped,
    decreases s.len(),
{
    if s.len() > 0 && s[0].wrapped {
        lemma_lead_wrapped(s.drop_first());
        assert forall|i: int| 0 <= i < lead_wrapped(s) implies (#[trigger] s[i]).wrapped by {
            if i > 0 {
                assert(s[i] == s.drop_first()[i - 1]);
            }
        }
    }
}

/// A sequence that starts with a line that is not wrapped splits into its
/// first logical line and the logical lines of the rest.
pub proof fn lemma_groups_unfold(s: Seq<Line>)
    requires
        s.len() > 0,
        !s[0].wrapped,
    ensures
        1 + lead_wrapped(s.drop_first()) <= s.len(),
        groups(s) == seq![s.take(1 + lead_wrapped(s.drop_first()) as int)] + groups(
            s.skip(1 + lead_wrapped(s.drop_first()) as int),
        ),
{
    lemma_lead_wrapped(s.drop_first());
    assert(lead_wrapped(s) == 0);
    assert(s.skip(0) =~= s);
}

/// Wrapped lines at the start belong to no logical line.
pub proof fn lemma_groups_skip_lead(s: Seq<Line>)
    ensures
        groups(s) == groups(s.skip(lead_wrapped(s) as int)),
{
    lemma_lead_wrapped(s);
    let t = s.skip(lead_wrapped(s) as int);
    if t.len() > 0 {
        assert(!t[0].wrapped);
    }
    assert(lead_wrapped(t) == 0);
    assert(t.skip(0) =~= t);
}

pub proof fn lemma_flatten_cons<A>(x: Seq<A>, rest: Seq<Seq<A>>)
    ensures
        (seq![x] + rest).flatten() == x + rest.flatten(),
{
    let whole = seq![x] + rest;
    assert(whole.first() == x);
    assert(whole.drop_first() =~= rest);
}

/// Rewrapping a sequence that starts with a line that is not wrapped gives
/// the lines of its first logical line, then those of the rest.
pub proof fn lemma_reflow_unfold(s: Seq<Line>, cols: nat, blank: Cell)
    requires
        s.len() > 0,
        !s[0].wrapped,
    ensures
        1 + lead_wrapped(s.drop_first()) <= s.len(),
        reflow(s, cols, blank) == reflow_group(s.take(1 + lead_wrapped(s.drop_first()) as int), cols, blank)
            + reflow(s.skip(1 + lead_wrapped(s.drop_first()) as int), cols, blank),
{
    lemma_groups_unfold(s);
    let g = 1 + lead_wrapped(s.drop_first());
    let f = |x: Seq<Line>| reflow_group(x, cols, blank);
    let rest = groups(s.skip(g as int));
    assert((seq![s.take(g as int)] + rest).map_values(f) =~= seq![f(s.take(g as int))] + rest.map_values(f));
    lemma_flatten_cons(f(s.take(g as int)), rest.map_values(f));
}

/// Wrapped lines at the start are dropped by rewrapping.
pub proof fn lemma_reflow_skip_lead(s: Seq<Line>, cols: nat, blank: Cell)
    ensures
        reflow(s, cols, blank) == reflow(s.skip(lead_wrapped(s) as int), cols, blank),
{
    lemma_groups_skip_lead(s);
}

pub proof fn lemma_reflow_empty(cols: nat, blank: Cell)
    ensures
        reflow(Seq::<Line>::empty(), cols, blank) == Seq::<Line>::empty(),
{
    let e = Seq::<Line>::empty();
    assert(lead_wrapped(e) == 0);
    assert(e.skip(0).len() == 0);
    assert(groups(e) =~= Seq::<Seq<Line>>::empty());
    assert(groups(e).map_values(|g: Seq<Line>| reflow_group(g, cols, blank)) =~= Seq::<Seq<Line>>::empty());
}

/// The cells of the first `k + 1` lines are those of the first `k`, then those of line `k`.
pub proof fn lemma_concat_cells_take(g: Seq<Line>, k: int)
    requires
        0 <= k < g.len(),
    ensures
        concat_cells(g.take(k + 1)) == concat_cells(g.take(k)) + g[k].cells,
{
    let f = |l: Line| l.cells;
    assert(g.take(k + 1).map_values(f) =~= g.take(k).map_values(f).push(g[k].cells));
    g.take(k).map_values(f).lemma_flatten_push(g[k].cells);
}

/// Every line of `s` holds `cols` cells.
pub open spec fn widths_are(s: Seq<Line>, cols: nat) -> bool {
    forall|j: int| 0 <= j < s.len() ==> (#[trigger] s[j]).cells.len() == cols
}

pub proof fn lemma_reflow_group_widths(g: Seq<Line>, cols: nat, blank: Cell)
    requires
        g.len() >= 1,
        group_ok(g, cols),
    ensures
        widths_are(reflow_group(g, cols, blank), cols),
{
    let x = content(g, cols);
    if g.len() == 1 && x.len() <= cols {
        assert(reflow_group(g, cols, blank)[0].cells == pad(x, cols, blank));
    } else {
        lemma_chunks_of(x, cols);
        let c = chunks_of(x, cols);
        let out = chunk_lines(x, cols, blank);
        assert forall|j: int| 0 <= j < out.len() implies (#[trigger] out[j]).cells.len() == cols by {
            assert(0 < c[j].len() <= cols);
        }
    }
}

pub proof fn lemma_reflow_ok_skip(s: Seq<Line>, cols: nat, m: int)
    requires
        reflow_ok(s, cols),
        0 <= m <= s.len(),
    ensures
        reflow_ok(s.skip(m), cols),
{
    let t = s.skip(m);
    assert forall|i: int| 0 <= i < t.len() && !t[i].wrapped implies group_ok(#[trigger] group_at(t, i), cols) by {
        assert(t.skip(i + 1) =~= s.skip(m + i + 1));
        lemma_lead_wrapped(t.skip(i + 1));
        assert(group_at(t, i) =~= group_at(s, m + i));
        assert(s[m + i] == t[i]);
    }
}

pub proof fn lemma_widths_concat(a: Seq<Line>, b: Seq<Line>, cols: nat)
    requires
        widths_are(a, cols),
        widths_are(b, cols),
    ensures
        widths_are(a + b, cols),
{
    assert forall|j: int| 0 <= j < (a + b).len() implies (#[trigger] (a + b)[j]).cells.len() == cols by {
        if j >= a.len() {
            assert((a + b)[j] == b[j - a.len()]);
        }
    }
}

/// Rewrapping to width `cols` gives lines of `cols` cells.
pub proof fn lemma_reflow_widths(s: Seq<Line>, cols: nat, blank: Cell)
    requires
        reflow_ok(s, cols),
    ensures
        widths_are(reflow(s, cols, blank), cols),
    decreases s.len(),
{
    lemma_lead_wrapped(s);
    lemma_reflow_skip_lead(s, cols, blank);
    let lead = lead_wrapped(s) as int;
    let t = s.skip(lead);
    if t.len() == 0 {
        assert(t =~= Seq::<Line>::empty());
        lemma_reflow_empty(cols, blank);
    } else {
        lemma_reflow_unfold(t, cols, blank);
        let glen = 1 + lead_wrapped(t.drop_first());
        assert(t.drop_first() =~= s.skip(lead + 1));
        assert(t.take(glen as int) =~= group_at(s, lead));
        assert(group_ok(group_at(s, lead), cols));
        lemma_reflow_group_widths(t.take(glen as int), cols, blank);
        lemma_reflow_ok_skip(s, cols, lead + glen);
        assert(t.skip(glen as int) =~= s.skip(lead + glen));
        lemma_reflow_widths(s.skip(lead + glen), cols, blank);
        lemma_widths_concat(
            reflow_group(t.take(glen as int), cols, blank),
            reflow(t.skip(glen as int), cols, blank),
            cols,
        );
    }
}

pub proof fn lemma_trim_blank_lines(v: Seq<Line>, n: nat)
    ensures
        trim_blank_lines(v, n) == v.take(trim_blank_lines(v, n).len() as int),
        trim_blank_lines(v, n).len() <= v.len(),
        v.len() <= n ==> trim_blank_lines(v, n) == v,
        v.len() > n ==> trim_blank_lines(v, n).len() >= n,
    decreases v.len(),
{
    if v.len() > n && all_empty(v.last()) {
        lemma_trim_blank_lines(v.drop_last(), n);
        let t = trim_blank_lines(v.drop_last(), n);
        assert(v.drop_last().take(t.len() as int) =~= v.take(t.len() as int));
    } else {
        assert(v.take(v.len() as int) =~= v);
    }
}

pub proof fn lemma_widths_take_skip(s: Seq<Line>, cols: nat, a: int)
    requires
        widths_are(s, cols),
        0 <= a <= s.len(),
    ensures
        widths_are(s.take(a), cols),
        widths_are(s.skip(a), cols),
{
    assert forall|j: int| 0 <= j < s.skip(a).len() implies (#[trigger] s.skip(a)[j]).cells.len() == cols by {
        assert(s.skip(a)[j] == s[a + j]);
    }
    assert forall|j: int| 0 <= j < s.take(a).len() implies (#[trigger] s.take(a)[j]).cells.len() == cols by {
        assert(s.take(a)[j] == s[j]);
    }
}

pub proof fn lemma_chunks_of<A>(s: Seq<A>, n: nat)
    requires
        n > 0,
    ensures
        chunks_of(s, n).flatten() == s,
        s.len() > 0 ==> chunks_of(s, n).len() > 0,
        forall|j: int| 0 <= j < chunks_of(s, n).len() - 1 ==> (#[trigger] chunks_of(s, n)[j]).len() == n,
        forall|j: int|
            0 <= j < chunks_of(s, n).len() ==> 0 < (#[trigger] chunks_of(s, n)[j]).len() <= n,
    decreases s.len(),
{
    if s.len() == 0 {
    } else if s.len() <= n {
        assert(seq![s].drop_first() =~= Seq::<Seq<A>>::empty());
        assert(seq![s].flatten() == s + Seq::<Seq<A>>::empty().flatten());
        assert(seq![s].flatten() =~= s);
    } else {
        let rest = chunks_of(s.skip(n as int), n);
        lemma_chunks_of(s.skip(n as int), n);
        lemma_flatten_cons(s.take(n as int), rest);
        assert(s.take(n as int) + s.skip(n as int) =~= s);
        let c = chunks_of(s, n);
        assert forall|j: int| 0 <= j < c.len() implies 0 < (#[trigger] c[j]).len() <= n by {
            if j > 0 {
                assert(c[j] == rest[j - 1]);
            }
        }
        assert forall|j: int| 0 <= j < c.len() - 1 implies (#[trigger] c[j]).len() == n by {
            if j > 0 {
                assert(c[j] == rest[j - 1]);
            }
        }
    }
}

} // verus!
