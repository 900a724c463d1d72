//! The grid layout of a backward tree, and its HTML and debug text.

use vstd::prelude::*;
use crate::checks::{depths, seq_max, seq_sum, sizes, tree_view, well_formed, BackwardTree, TreeV};
use crate::render::constants;
use crate::text::{decimal, decimal_string};
use crate::types::{name_text, ActionStep, IngredientRef, State, StepV, Symbol};

verus! {

/// What a cell shows.
#[derive(Debug)]
pub enum CellData {
    Ingredient { i: IngredientRef },
    Step { step: ActionStep },
    Done,
}

/// One cell of the grid, with the rows and columns it spans.
#[derive(Debug)]
pub struct Cell {
    pub colspan: usize,
    pub rowspan: usize,
    pub contents: CellData,
}

/// The model of a `CellData`.
pub enum ContentV {
    Ingredient(IngredientRef),
    Step(StepV),
    Done,
}

/// The model of a `Cell`.
pub struct CellV {
    pub colspan: nat,
    pub rowspan: nat,
    pub content: ContentV,
}

impl View for Cell {
    type V = CellV;

    open spec fn view(&self) -> CellV {
        CellV {
            colspan: self.colspan as nat,
            rowspan: self.rowspan as nat,
            content: match self.contents {
                CellData::Ingredient { i } => ContentV::Ingredient(i),
                CellData::Step { step } => ContentV::Step(step@),
                CellData::Done => ContentV::Done,
            },
        }
    }
}

pub open spec fn row_view(r: Vec<Cell>) -> Seq<CellV> {
    r@.map_values(|c: Cell| c@)
}

pub open spec fn grid_view(g: Seq<Vec<Cell>>) -> Seq<Seq<CellV>> {
    g.map_values(|r: Vec<Cell>| row_view(r))
}

/// One cell per step, each one column wide and `rowspan` rows high.
pub open spec fn step_cells(actions: Seq<StepV>, rowspan: nat) -> Seq<CellV> {
    actions.map_values(|a: StepV| CellV { colspan: 1, rowspan, content: ContentV::Step(a) })
}

/// One row per ingredient of the node, each a single cell that takes every
/// column left of the node's own steps.
pub open spec fn ingredient_rows(t: TreeV, depth: int) -> Seq<Seq<CellV>> {
    t.ingredients.map_values(
        |i: IngredientRef|
            seq![CellV { colspan: (depth - t.actions.len() + 1) as nat, rowspan: 1, content: ContentV::Ingredient(i) }],
    )
}

/// The cells a node with children adds to its first row: its steps, or
/// the sink for a root without steps or ingredients.
pub open spec fn tail_cells(t: TreeV, root: bool) -> Seq<CellV> {
    if root && t.actions.len() == 0 && t.ingredients.len() == 0 {
        seq![CellV { colspan: 1, rowspan: t.size, content: ContentV::Done }]
    } else {
        step_cells(t.actions, t.size)
    }
}

/// `rows` with `tail` added to its first row, if there is one.
pub open spec fn extend_first(rows: Seq<Seq<CellV>>, tail: Seq<CellV>) -> Seq<Seq<CellV>> {
    if rows.len() > 0 {
        rows.update(0, rows[0] + tail)
    } else {
        rows
    }
}

/// The rows of each child, laid out `depth` columns from the root column.
pub open spec fn child_layouts(t: TreeV, depth: int) -> Seq<Seq<Seq<CellV>>>
    decreases t, 0nat,
{
    Seq::new(
        t.children.len(),
        |i: int|
            if 0 <= i < t.children.len() {
                layout(t.children[i], depth, false)
            } else {
                Seq::empty()
            },
    )
}

/// The grid of a node, `depth` columns still owed before the root column:
/// its ingredient rows, then its children's rows one after the other. A
/// leaf puts its steps on its first row; a node with children puts its
/// steps (or, at the root, the sink) on the first row of its children, each
/// cell spanning all the rows of the node.
pub open spec fn layout(t: TreeV, depth: int, root: bool) -> Seq<Seq<CellV>>
    decreases t, 1nat,
{
    let ing = ingredient_rows(t, depth);
    if t.children.len() == 0 {
        extend_first(ing, step_cells(t.actions, t.size))
    } else {
        ing + extend_first(
            child_layouts(t, depth - t.actions.len()).flatten_alt(),
            tail_cells(t, root),
        )
    }
}

/// Every node has no more steps than the columns left for it.
pub open spec fn depth_ok(t: TreeV, depth: int) -> bool
    decreases t,
{
    &&& t.actions.len() <= depth
    &&& forall|i: int|
        0 <= i < t.children.len() ==> depth_ok(#[trigger] t.children[i], depth - t.actions.len())
}

proof fn lemma_grid_push(g: Seq<Vec<Cell>>, r: Vec<Cell>)
    ensures
        grid_view(g.push(r)) == grid_view(g).push(row_view(r)),
{
    assert(grid_view(g.push(r)) =~= grid_view(g).push(row_view(r)));
}

/// Appends `rows` to `vec`.
fn append_rows(vec: &mut Vec<Vec<Cell>>, rows: Vec<Vec<Cell>>)
    ensures
        grid_view(final(vec)@) == grid_view(old(vec)@) + grid_view(rows@),
{
    let mut rows = rows;
    let ghost r0 = rows@;
    vec.append(&mut rows);
    proof {
        assert(grid_view(vec@) =~= grid_view(old(vec)@) + grid_view(r0));
    }
}

/// Pushes one cell per step onto `row`, each `rowspan` rows high.
fn push_steps(row: &mut Vec<Cell>, actions: &Vec<ActionStep>, rowspan: usize)
    ensures
        row_view(*final(row)) == row_view(*old(row)) + step_cells(
            actions@.map_values(|a: ActionStep| a@),
            rowspan as nat,
        ),
{
    let ghost av = actions@.map_values(|a: ActionStep| a@);
    let mut i: usize = 0;
    while i < actions.len()
        invariant
            0 <= i <= actions.len(),
            av == actions@.map_values(|a: ActionStep| a@),
            row_view(*row) == row_view(*old(row)) + step_cells(av.take(i as int), rowspan as nat),
        decreases actions.len() - i,
    {
        let ghost before = *row;
        row.push(Cell { rowspan, colspan: 1, contents: CellData::Step { step: actions[i].clone() } });
        proof {
            assert(step_cells(av.take(i + 1), rowspan as nat) =~= step_cells(
                av.take(i as int),
                rowspan as nat,
            ).push(CellV { colspan: 1, rowspan: rowspan as nat, content: ContentV::Step(av[i as int]) }));
            assert(row_view(*row) =~= row_view(before).push(row@[before@.len() as int]@));
        }
        i += 1;
    }
    proof {
        assert(av.take(i as int) =~= av);
    }
}

proof fn lemma_grid_update(g: Seq<Vec<Cell>>, i: int, r: Vec<Cell>)
    requires
        0 <= i < g.len(),
    ensures
        grid_view(g.remove(i).insert(i, r)) == grid_view(g).update(i, row_view(r)),
{
    assert(grid_view(g.remove(i).insert(i, r)) =~= grid_view(g).update(i, row_view(r)));
}

/// Lays out `focus` with `depth` columns owed before the root column.
fn to_table(focus: &BackwardTree, depth: usize, root: bool) -> (rows: Vec<Vec<Cell>>)
    requires
        depth_ok(tree_view(*focus), depth as int),
        depth < usize::MAX,
    ensures
        grid_view(rows@) == layout(tree_view(*focus), depth as int, root),
    decreases focus,
{
    let ghost t = tree_view(*focus);
    let ghost ing = ingredient_rows(t, depth as int);
    let k = focus.actions.len();
    let mut vec: Vec<Vec<Cell>> = Vec::new();
    proof {
        assert(grid_view(vec@) =~= ing.take(0));
    }
    let mut i: usize = 0;
    while i < focus.ingredients.len()
        invariant
            0 <= i <= focus.ingredients.len(),
            t == tree_view(*focus),
            ing == ingredient_rows(t, depth as int),
            k == t.actions.len(),
            k <= depth < usize::MAX,
            grid_view(vec@) == ing.take(i as int),
        decreases focus.ingredients.len() - i,
    {
        let mut row: Vec<Cell> = Vec::new();
        row.push(
            Cell {
                rowspan: 1,
                colspan: depth - k + 1,
                contents: CellData::Ingredient { i: focus.ingredients[i] },
            },
        );
        let ghost before = vec@;
        vec.push(row);
        proof {
            lemma_grid_push(before, row);
            assert(row_view(row) =~= ing[i as int]);
            assert(ing.take(i + 1) =~= ing.take(i as int).push(ing[i as int]));
        }
        i += 1;
    }
    proof {
        assert(ing.take(i as int) =~= ing);
    }
    if focus.paths.len() == 0 {
        if vec.len() > 0 {
            let ghost g = vec@;
            let mut row = vec.remove(0);
            push_steps(&mut row, &focus.actions, focus.size);
            vec.insert(0, row);
            proof {
                lemma_grid_update(g, 0, row);
            }
        }
        return vec;
    }
    let ghost kids = child_layouts(t, depth - k);
    let n_ing = vec.len();
    proof {
        assert(kids.take(0).flatten_alt() =~= Seq::<Seq<CellV>>::empty());
        assert(grid_view(vec@) =~= ing + kids.take(0).flatten_alt());
    }
    let mut c: usize = 0;
    while c < focus.paths.len()
        invariant
            0 <= c <= focus.paths.len(),
            t == tree_view(*focus),
            depth_ok(t, depth as int),
            k == t.actions.len(),
            k <= depth < usize::MAX,
            kids == child_layouts(t, depth - k),
            n_ing == ing.len(),
            grid_view(vec@) == ing + kids.take(c as int).flatten_alt(),
        decreases focus.paths.len() - c,
    {
        proof {
            assert(t.children[c as int] == tree_view(focus.paths@[c as int]));
            assert(t.children.len() == focus.paths@.len());
            assert(depth_ok(t.children[c as int], depth as int - t.actions.len()));
        }
        let rows = to_table(&focus.paths[c], depth - k, false);
        let ghost before = vec@;
        append_rows(&mut vec, rows);
        proof {
            assert(kids.take(c + 1).drop_last() =~= kids.take(c as int));
            assert(kids[c as int] == layout(t.children[c as int], depth - k, false));
            assert(grid_view(vec@) =~= ing + kids.take(c + 1).flatten_alt());
        }
        c += 1;
    }
    proof {
        assert(kids.take(c as int) =~= kids);
    }
    if vec.len() > n_ing {
        let ghost g = vec@;
        let mut row = vec.remove(n_ing);
        if root && k == 0 && focus.ingredients.len() == 0 {
            let ghost r0 = row;
            row.push(Cell { rowspan: focus.size, colspan: 1, contents: CellData::Done });
            proof {
                assert(row_view(row) =~= row_view(r0) + tail_cells(t, root));
            }
        } else {
            push_steps(&mut row, &focus.actions, focus.size);
        }
        vec.insert(n_ing, row);
        proof {
            lemma_grid_update(g, n_ing as int, row);
            let flat = kids.flatten_alt();
            assert(grid_view(g) == ing + flat);
            assert(grid_view(g)[n_ing as int] == flat[0]);
            assert(row_view(row) == flat[0] + tail_cells(t, root));
            assert(grid_view(vec@) =~= ing + extend_first(kids.flatten_alt(), tail_cells(t, root)));
        }
    } else {
        proof {
            assert(grid_view(vec@) =~= ing + extend_first(kids.flatten_alt(), tail_cells(t, root)));
        }
    }
    vec
}

/// Every node of `t` fits the columns left for it.
fn depth_fits(t: &BackwardTree, depth: usize) -> (r: bool)
    ensures
        r == depth_ok(tree_view(*t), depth as int),
    decreases t,
{
    let ghost tv = tree_view(*t);
    if t.actions.len() > depth {
        return false;
    }
    let d = depth - t.actions.len();
    let mut i: usize = 0;
    while i < t.paths.len()
        invariant
            0 <= i <= t.paths.len(),
            tv == tree_view(*t),
            d == depth - tv.actions.len(),
            tv.children.len() == t.paths@.len(),
            forall|j: int| 0 <= j < i ==> depth_ok(#[trigger] tv.children[j], d as int),
        decreases t.paths.len() - i,
    {
        proof {
            assert(tv.children[i as int] == tree_view(t.paths@[i as int]));
        }
        if !depth_fits(&t.paths[i], d) {
            return false;
        }
        i += 1;
    }
    true
}

/// A backward tree laid out as rows of cells.
#[derive(Debug)]
pub struct Table<'a> {
    state: &'a State,
    table_data: Vec<Vec<Cell>>,
}

impl<'a> Table<'a> {
    /// The rows of the table.
    pub closed spec fn grid(&self) -> Seq<Seq<CellV>> {
        grid_view(self.table_data@)
    }

    /// The store whose names the table shows.
    pub closed spec fn store(&self) -> &'a State {
        self.state
    }

    /// Lays out `bt`, starting `bt.max_depth` columns from the sink column.
    pub fn new(state: &'a State, bt: &BackwardTree) -> (r: Table<'a>)
        requires
            depth_ok(tree_view(*bt), bt.max_depth as int),
            bt.max_depth < usize::MAX,
        ensures
            r.grid() == layout(tree_view(*bt), bt.max_depth as int, true),
            r.store() == state,
    {
        Table { state, table_data: to_table(bt, bt.max_depth, true) }
    }
}

impl BackwardTree {
    /// The tree can be laid out: no node has more steps than the columns
    /// left for it, and one more column than the depth still fits.
    pub fn can_lay_out(&self) -> (r: bool)
        ensures
            r == (depth_ok(tree_view(*self), self.max_depth as int) && self.max_depth < usize::MAX),
    {
        self.max_depth < usize::MAX && depth_fits(self, self.max_depth)
    }
}

/// The columns that the cells of `row` still cover `off` rows below it.
pub open spec fn row_cover(row: Seq<CellV>, off: int) -> nat
    decreases row.len(),
{
    if row.len() == 0 {
        0
    } else {
        row_cover(row.drop_last(), off) + if row.last().rowspan > off {
            row.last().colspan
        } else {
            0
        }
    }
}

/// The columns of row `r` that cells of `g` cover, counting each cell in
/// the rows it starts in and the rows its row span reaches below.
pub open spec fn cover(g: Seq<Seq<CellV>>, r: int) -> nat
    decreases g.len(),
{
    if g.len() == 0 {
        0
    } else {
        cover(g.drop_last(), r) + if g.len() - 1 <= r {
            row_cover(g.last(), r - (g.len() - 1))
        } else {
            0
        }
    }
}

/// No cell of `g` reaches below row `n`.
pub open spec fn spans_within(g: Seq<Seq<CellV>>, n: int) -> bool {
    forall|q: int, j: int| 0 <= q < g.len() && 0 <= j < g[q].len() ==> q + (#[trigger] g[q][j]).rowspan <= n
}

proof fn lemma_row_cover_concat(x: Seq<CellV>, y: Seq<CellV>, off: int)
    ensures
        row_cover(x + y, off) == row_cover(x, off) + row_cover(y, off),
    decreases y.len(),
{
    if y.len() == 0 {
        assert(x + y =~= x);
    } else {
        assert((x + y).drop_last() =~= x + y.drop_last());
        lemma_row_cover_concat(x, y.drop_last(), off);
    }
}

proof fn lemma_row_cover_zero(row: Seq<CellV>, off: int)
    requires
        forall|j: int| 0 <= j < row.len() ==> (#[trigger] row[j]).rowspan <= off,
    ensures
        row_cover(row, off) == 0,
    decreases row.len(),
{
    if row.len() > 0 {
        lemma_row_cover_zero(row.drop_last(), off);
    }
}

proof fn lemma_row_cover_steps(acts: Seq<StepV>, s: nat, off: int)
    requires
        0 <= off < s,
    ensures
        row_cover(step_cells(acts, s), off) == acts.len(),
    decreases acts.len(),
{
    if acts.len() > 0 {
        assert(step_cells(acts, s).drop_last() =~= step_cells(acts.drop_last(), s));
        lemma_row_cover_steps(acts.drop_last(), s, off);
    }
}

proof fn lemma_cover_concat(a: Seq<Seq<CellV>>, b: Seq<Seq<CellV>>, r: int)
    ensures
        cover(a + b, r) == cover(a, r) + cover(b, r - a.len()),
    decreases b.len(),
{
    if b.len() == 0 {
        assert(a + b =~= a);
    } else {
        assert((a + b).drop_last() =~= a + b.drop_last());
        lemma_cover_concat(a, b.drop_last(), r);
    }
}

proof fn lemma_cover_below(g: Seq<Seq<CellV>>, n: int, r: int)
    requires
        spans_within(g, n),
        r >= n,
    ensures
        cover(g, r) == 0,
    decreases g.len(),
{
    if g.len() > 0 {
        let q = g.len() - 1;
        assert(spans_within(g.drop_last(), n)) by {
            assert forall|a: int, j: int|
                0 <= a < g.drop_last().len() && 0 <= j < g.drop_last()[a].len() implies a + (
                #[trigger] g.drop_last()[a][j]).rowspan <= n by {
                assert(g.drop_last()[a] == g[a]);
                assert(a + g[a][j].rowspan <= n);
            }
        }
        lemma_cover_below(g.drop_last(), n, r);
        assert forall|j: int| 0 <= j < g.last().len() implies (#[trigger] g.last()[j]).rowspan <= r
            - q by {
            assert(q + g[q][j].rowspan <= n);
        }
        lemma_row_cover_zero(g.last(), r - q);
    }
}

proof fn lemma_cover_above(g: Seq<Seq<CellV>>, r: int)
    requires
        r < 0,
    ensures
        cover(g, r) == 0,
    decreases g.len(),
{
    if g.len() > 0 {
        lemma_cover_above(g.drop_last(), r);
    }
}

proof fn lemma_cover_extend(g: Seq<Seq<CellV>>, tail: Seq<CellV>, r: int)
    requires
        g.len() > 0,
        0 <= r,
    ensures
        cover(g.update(0, g[0] + tail), r) == cover(g, r) + row_cover(tail, r),
    decreases g.len(),
{
    let h = g.update(0, g[0] + tail);
    if g.len() == 1 {
        assert(h.drop_last() =~= Seq::<Seq<CellV>>::empty());
        assert(g.drop_last() =~= Seq::<Seq<CellV>>::empty());
        lemma_row_cover_concat(g[0], tail, r);
    } else {
        assert(h.drop_last() =~= g.drop_last().update(0, g[0] + tail));
        lemma_cover_extend(g.drop_last(), tail, r);
    }
}

proof fn lemma_ingredient_rows(t: TreeV, d: int, n: int)
    requires
        0 <= n <= t.ingredients.len(),
    ensures
        spans_within(ingredient_rows(t, d).take(n), n),
        forall|r: int| 0 <= r < n ==> cover(ingredient_rows(t, d).take(n), r) == (d - t.actions.len() + 1) as nat,
    decreases n,
{
    let ing = ingredient_rows(t, d);
    let w = (d - t.actions.len() + 1) as nat;
    if n > 0 {
        lemma_ingredient_rows(t, d, n - 1);
        let g = ing.take(n);
        assert(g.drop_last() =~= ing.take(n - 1));
        assert(g.last() == ing[n - 1]);
        assert forall|r: int| 0 <= r < n implies cover(g, r) == w by {
            let last = g.last();
            assert(last.drop_last() =~= Seq::<CellV>::empty());
            assert(last.len() == 1);
            assert(last[0].rowspan == 1 && last[0].colspan == w);
            if r == n - 1 {
                lemma_cover_below(ing.take(n - 1), n - 1, r);
                assert(row_cover(last.drop_last(), 0) == 0);
                assert(row_cover(last, 0) == w);
            } else {
                assert(cover(g, r) == cover(ing.take(n - 1), r));
            }
        }
    } else {
        assert(ing.take(0) =~= Seq::<Seq<CellV>>::empty());
    }
}

proof fn lemma_seq_max_ge(s: Seq<nat>, i: int)
    requires
        0 <= i < s.len(),
    ensures
        s[i] <= seq_max(s),
    decreases s.len(),
{
    if i > 0 {
        lemma_seq_max_ge(s.drop_first(), i - 1);
    }
}

proof fn lemma_sum_take(s: Seq<nat>, j: int)
    requires
        0 <= j < s.len(),
    ensures
        seq_sum(s.take(j + 1)) == seq_sum(s.take(j)) + s[j],
{
    assert(s.take(j + 1) =~= s.take(j).push(s[j]));
    crate::checks::lemma_sum_push(s.take(j), s[j]);
}

/// The first `j` children laid out one after the other.
proof fn lemma_children_rect(t: TreeV, d: int, j: int)
    requires
        0 <= j <= t.children.len(),
        forall|i: int| 0 <= i < t.children.len() ==> well_formed(#[trigger] t.children[i]),
        forall|i: int| 0 <= i < t.children.len() ==> (#[trigger] t.children[i]).max_depth <= d,
    ensures
        child_layouts(t, d).take(j).flatten_alt().len() == seq_sum(sizes(t.children).take(j)),
        spans_within(
            child_layouts(t, d).take(j).flatten_alt(),
            child_layouts(t, d).take(j).flatten_alt().len() as int,
        ),
        forall|r: int|
            0 <= r < child_layouts(t, d).take(j).flatten_alt().len() ==> cover(
                child_layouts(t, d).take(j).flatten_alt(),
                r,
            ) == d + 1,
    decreases t, 0nat, j,
{
    let kids = child_layouts(t, d);
    if j == 0 {
        assert(kids.take(0) =~= Seq::<Seq<Seq<CellV>>>::empty());
        assert(sizes(t.children).take(0) =~= Seq::<nat>::empty());
    } else {
        lemma_children_rect(t, d, j - 1);
        let c = t.children[j - 1];
        lemma_layout_rect(c, d, false);
        let a = kids.take(j - 1).flatten_alt();
        let b = layout(c, d, false);
        assert(kids.take(j).drop_last() =~= kids.take(j - 1));
        assert(kids.take(j).last() == b);
        let f = kids.take(j).flatten_alt();
        assert(f == a + b);
        lemma_sum_take(sizes(t.children), j - 1);
        assert forall|q: int, i: int| 0 <= q < f.len() && 0 <= i < f[q].len() implies q + (
        #[trigger] f[q][i]).rowspan <= f.len() by {
            if q < a.len() {
                assert(f[q] == a[q]);
                assert(q + a[q][i].rowspan <= a.len());
            } else {
                assert(f[q] == b[q - a.len()]);
                assert(q - a.len() + b[q - a.len()][i].rowspan <= b.len());
            }
        }
        assert forall|r: int| 0 <= r < f.len() implies cover(f, r) == d + 1 by {
            lemma_cover_concat(a, b, r);
            if r < a.len() {
                lemma_cover_above(b, r - a.len());
            } else {
                lemma_cover_below(a, a.len() as int, r);
            }
        }
    }
}

/// The grid of a well-formed node is as many rows as the node's size, no
/// cell reaches below it, and each row covers one column more than the
/// depth it was laid out at (two at the root, whose sink takes one).
proof fn lemma_layout_rect(t: TreeV, d: int, root: bool)
    requires
        well_formed(t),
        t.max_depth <= d,
        root ==> t.actions.len() == 0 && t.ingredients.len() == 0,
    ensures
        layout(t, d, root).len() == t.size,
        spans_within(layout(t, d, root), t.size as int),
        forall|r: int|
            0 <= r < t.size ==> cover(layout(t, d, root), r) == d + 1 + if root {
                1int
            } else {
                0int
            },
    decreases t, 1nat, 0nat,
{
    let k = t.actions.len();
    let ing = ingredient_rows(t, d);
    if t.children.len() == 0 {
        let n = t.ingredients.len() as int;
        lemma_ingredient_rows(t, d, n);
        assert(ing.take(n) =~= ing);
        if n > 0 {
            let steps = step_cells(t.actions, t.size);
            let g = ing.update(0, ing[0] + steps);
            assert(layout(t, d, root) == g);
            assert forall|q: int, j: int| 0 <= q < g.len() && 0 <= j < g[q].len() implies q + (
            #[trigger] g[q][j]).rowspan <= t.size by {
                if q == 0 && j >= ing[0].len() {
                    assert(g[0][j] == steps[j - ing[0].len()]);
                } else {
                    assert(g[q][j] == ing[q][j]);
                }
            }
            assert forall|r: int| 0 <= r < t.size implies cover(g, r) == d + 1 by {
                lemma_cover_extend(ing, steps, r);
                lemma_row_cover_steps(t.actions, t.size, r);
            }
        }
    } else {
        assert(ing =~= Seq::<Seq<CellV>>::empty());
        assert forall|i: int| 0 <= i < t.children.len() implies (#[trigger] t.children[i]).max_depth
            <= d - k by {
            lemma_seq_max_ge(depths(t.children), i);
        }
        lemma_children_rect(t, d - k, t.children.len() as int);
        let kids = child_layouts(t, d - k);
        assert(kids.take(t.children.len() as int) =~= kids);
        assert(sizes(t.children).take(t.children.len() as int) =~= sizes(t.children));
        let f = kids.flatten_alt();
        let tail = tail_cells(t, root);
        assert(layout(t, d, root) == ing + extend_first(f, tail));
        assert(ing + extend_first(f, tail) =~= extend_first(f, tail));
        if f.len() > 0 {
            let g = f.update(0, f[0] + tail);
            assert forall|q: int, j: int| 0 <= q < g.len() && 0 <= j < g[q].len() implies q + (
            #[trigger] g[q][j]).rowspan <= t.size by {
                if q == 0 && j >= f[0].len() {
                    assert(g[0][j] == tail[j - f[0].len()]);
                } else {
                    assert(g[q][j] == f[q][j]);
                }
            }
            assert forall|r: int| 0 <= r < t.size implies cover(g, r) == d + 1 + if root {
                1int
            } else {
                0int
            } by {
                lemma_cover_extend(f, tail, r);
                assert(cover(f, r) == d - k + 1);
                if root {
                    assert(tail == seq![CellV { colspan: 1, rowspan: t.size, content: ContentV::Done }]);
                    assert(tail.drop_last() =~= Seq::<CellV>::empty());
                    assert(row_cover(tail.drop_last(), r) == 0);
                    assert(row_cover(tail, r) == 1);
                } else {
                    lemma_row_cover_steps(t.actions, t.size, r);
                    assert(row_cover(tail, r) == k);
                }
            }
        }
    }
}

/// Rectangularity: every row of the grid of a well-formed root covers the
/// same columns: `max_depth + 1` of ingredients and steps, and the sink's
/// column. The grid has one row per ingredient of the tree.
pub proof fn grid_is_rectangular(t: TreeV)
    requires
        well_formed(t),
        t.actions.len() == 0,
        t.ingredients.len() == 0,
    ensures
        layout(t, t.max_depth as int, true).len() == t.size,
        forall|r: int|
            0 <= r < layout(t, t.max_depth as int, true).len() ==> cover(
                layout(t, t.max_depth as int, true),
                r,
            ) == t.max_depth + 2,
{
    lemma_layout_rect(t, t.max_depth as int, true);
}

/// Rectangularity without the sink: the grid of a well-formed root is the
/// rows of its children, each covering `max_depth + 1` columns, with the
/// sink added to the first row as one cell that spans every row.
pub proof fn grid_is_rectangular_before_sink(t: TreeV)
    requires
        well_formed(t),
        t.actions.len() == 0,
        t.ingredients.len() == 0,
        t.children.len() > 0,
    ensures
        ({
            let body = child_layouts(t, t.max_depth as int).flatten_alt();
            let sink = CellV { colspan: 1, rowspan: t.size, content: ContentV::Done };
            &&& body.len() == t.size
            &&& layout(t, t.max_depth as int, true) == extend_first(body, seq![sink])
            &&& forall|r: int| 0 <= r < body.len() ==> cover(body, r) == t.max_depth + 1
        }),
{
    let d = t.max_depth as int;
    assert forall|i: int| 0 <= i < t.children.len() implies (#[trigger] t.children[i]).max_depth
        <= d by {
        lemma_seq_max_ge(depths(t.children), i);
    }
    lemma_children_rect(t, d, t.children.len() as int);
    let kids = child_layouts(t, d);
    assert(kids.take(t.children.len() as int) =~= kids);
    assert(sizes(t.children).take(t.children.len() as int) =~= sizes(t.children));
    let body = kids.flatten_alt();
    assert(ingredient_rows(t, d) =~= Seq::<Seq<CellV>>::empty());
    assert(Seq::<Seq<CellV>>::empty() + extend_first(body, tail_cells(t, true)) =~= extend_first(
        body,
        tail_cells(t, true),
    ));
}

proof fn lemma_depth_ok(t: TreeV, d: int)
    requires
        well_formed(t),
        t.max_depth <= d,
    ensures
        depth_ok(t, d),
    decreases t,
{
    assert forall|i: int| 0 <= i < t.children.len() implies depth_ok(
        #[trigger] t.children[i],
        d - t.actions.len(),
    ) by {
        lemma_seq_max_ge(depths(t.children), i);
        lemma_depth_ok(t.children[i], d - t.actions.len());
    }
}

/// A well-formed tree, as `into_tree` builds, fits the columns that
/// `Table::new` gives it.
pub proof fn well_formed_fits_layout(t: TreeV)
    requires
        well_formed(t),
    ensures
        depth_ok(t, t.max_depth as int),
{
    lemma_depth_ok(t, t.max_depth as int);
}

/// Idempotence: two tables laid out from trees with the same model hold the
/// same grid.
pub proof fn layout_is_idempotent(a: Table, b: Table, x: BackwardTree, y: BackwardTree)
    requires
        tree_view(x) == tree_view(y),
        x.max_depth == y.max_depth,
        a.grid() == layout(tree_view(x), x.max_depth as int, true),
        b.grid() == layout(tree_view(y), y.max_depth as int, true),
    ensures
        a.grid() == b.grid(),
{
}

/// The class names and page text used when writing a table as HTML.
#[derive(Debug)]
pub struct HTMLTableOptions {
    pub standalone: bool,
    pub html_header: String,
    pub html_footer: String,
    pub amount_class: String,
    pub seasonings_class: String,
    pub ingredient_class: String,
    pub action_class: String,
    pub done_class: String,
}

fn owned(s: &str) -> (r: String)
    ensures
        r@ == s@,
{
    let mut r = String::new();
    r.append(s);
    r
}

impl Default for HTMLTableOptions {
    fn default() -> (r: HTMLTableOptions)
        ensures
            !r.standalone,
            r.html_header@ == constants::STANDALONE_HTML_HEADER@,
            r.html_footer@ == constants::STANDALONE_HTML_FOOTER@,
            r.amount_class@ == "amount"@,
            r.seasonings_class@ == "seasonings"@,
            r.ingredient_class@ == "ingredient"@,
            r.action_class@ == "action"@,
            r.done_class@ == "done"@,
    {
        HTMLTableOptions {
            standalone: false,
            html_header: owned(constants::STANDALONE_HTML_HEADER),
            html_footer: owned(constants::STANDALONE_HTML_FOOTER),
            amount_class: owned("amount"),
            seasonings_class: owned("seasonings"),
            ingredient_class: owned("ingredient"),
            action_class: owned("action"),
            done_class: owned("done"),
        }
    }
}

/// An ingredient as a cell shows it: its name and optional amount.
#[derive(Debug)]
pub struct CellIngredient {
    pub name: String,
    pub amount: Option<String>,
}

/// The name of the ingredient that `i` designates, empty if the store does
/// not hold it.
pub open spec fn ingredient_name(st: &State, i: IngredientRef) -> Seq<char> {
    if st.has_ingredient(i) {
        name_text(st, st.ingredient_list()[i.id() as int].stuff.value)
    } else {
        Seq::empty()
    }
}

/// The amount of the ingredient that `i` designates, if it has one.
pub open spec fn ingredient_amount(st: &State, i: IngredientRef) -> Option<Seq<char>> {
    if st.has_ingredient(i) {
        match st.ingredient_list()[i.id() as int].amount {
            Some(a) => Some(name_text(st, a.value)),
            None => None,
        }
    } else {
        None
    }
}

/// `[amount] name`, or the bare name.
pub open spec fn ingredient_debug(name: Seq<char>, amount: Option<Seq<char>>) -> Seq<char> {
    match amount {
        Some(a) => "["@ + a + "] "@ + name,
        None => name,
    }
}

/// The amount in a span of the amount class, then the name.
pub open spec fn ingredient_html(opts: &HTMLTableOptions, name: Seq<char>, amount: Option<Seq<char>>) -> Seq<char> {
    match amount {
        Some(a) => "<span class=\""@ + opts.amount_class@ + "\">"@ + a + "</span> "@ + name,
        None => name,
    }
}

impl CellIngredient {
    /// Looks the ingredient up in the store.
    pub fn from_store(st: &State, i: IngredientRef) -> (r: CellIngredient)
        ensures
            r.name@ == ingredient_name(st, i),
            r.amount matches Some(a) ==> ingredient_amount(st, i) == Some(a@),
            r.amount is None ==> ingredient_amount(st, i) is None,
    {
        match st.ingredient(i) {
            Some(ing) => CellIngredient {
                name: st.text(ing.stuff.value),
                amount: match ing.amount {
                    Some(a) => Some(st.text(a.value)),
                    None => None,
                },
            },
            None => CellIngredient { name: String::new(), amount: None },
        }
    }

    pub open spec fn amount_view(&self) -> Option<Seq<char>> {
        match self.amount {
            Some(a) => Some(a@),
            None => None,
        }
    }

    /// The ingredient as HTML.
    pub fn html(&self, opts: &HTMLTableOptions) -> (r: String)
        ensures
            r@ == ingredient_html(opts, self.name@, self.amount_view()),
    {
        match &self.amount {
            Some(amt) => {
                let mut buf = String::new();
                buf.append("<span class=\"");
                buf.append(opts.amount_class.as_str());
                buf.append("\">");
                buf.append(amt.as_str());
                buf.append("</span> ");
                buf.append(self.name.as_str());
                buf
            },
            None => owned(self.name.as_str()),
        }
    }

    /// The ingredient as plain text.
    pub fn debug(&self) -> (r: String)
        ensures
            r@ == ingredient_debug(self.name@, self.amount_view()),
    {
        match &self.amount {
            Some(amt) => {
                let mut buf = String::new();
                buf.append("[");
                buf.append(amt.as_str());
                buf.append("] ");
                buf.append(self.name.as_str());
                buf
            },
            None => owned(self.name.as_str()),
        }
    }
}

pub open spec fn seasoning_debug(st: &State, i: IngredientRef) -> Seq<char> {
    ingredient_debug(ingredient_name(st, i), ingredient_amount(st, i))
}

pub open spec fn seasoning_html(st: &State, opts: &HTMLTableOptions, i: IngredientRef) -> Seq<char> {
    ingredient_html(opts, ingredient_name(st, i), ingredient_amount(st, i))
}

/// The seasonings as text, separated by commas.
pub open spec fn seasonings_debug(st: &State, s: Seq<IngredientRef>) -> Seq<char>
    decreases s.len(),
{
    if s.len() == 0 {
        Seq::empty()
    } else if s.len() == 1 {
        seasoning_debug(st, s[0])
    } else {
        seasonings_debug(st, s.drop_last()) + ","@ + seasoning_debug(st, s.last())
    }
}

/// The seasonings as HTML, each followed by a space.
pub open spec fn seasonings_html(st: &State, opts: &HTMLTableOptions, s: Seq<IngredientRef>) -> Seq<char>
    decreases s.len(),
{
    if s.len() == 0 {
        Seq::empty()
    } else {
        seasonings_html(st, opts, s.drop_last()) + seasoning_html(st, opts, s.last()) + " "@
    }
}

/// What a cell shows, as plain text.
pub open spec fn content_debug(st: &State, c: ContentV) -> Seq<char> {
    match c {
        ContentV::Done => "<>"@,
        ContentV::Step(step) => name_text(st, step.action.value) + " & "@ + seasonings_debug(
            st,
            step.seasonings,
        ),
        ContentV::Ingredient(i) => seasoning_debug(st, i),
    }
}

/// What a cell shows, as HTML.
pub open spec fn content_html(st: &State, opts: &HTMLTableOptions, c: ContentV) -> Seq<char> {
    match c {
        ContentV::Done => "<>"@,
        ContentV::Step(step) => if step.seasonings.len() == 0 {
            name_text(st, step.action.value)
        } else {
            name_text(st, step.action.value) + "<div class=\""@ + opts.seasonings_class@ + "\">"@
                + seasonings_html(st, opts, step.seasonings) + "</div>"@
        },
        ContentV::Ingredient(i) => seasoning_html(st, opts, i),
    }
}

/// The class of a cell, by what it shows.
pub open spec fn content_class(opts: &HTMLTableOptions, c: ContentV) -> Seq<char> {
    match c {
        ContentV::Ingredient(_) => opts.ingredient_class@,
        ContentV::Step(_) => opts.action_class@,
        ContentV::Done => opts.done_class@,
    }
}

fn seasonings_debug_text(st: &State, s: &Vec<IngredientRef>) -> (r: String)
    ensures
        r@ == seasonings_debug(st, s@),
{
    let mut buf = String::new();
    let mut i: usize = 0;
    while i < s.len()
        invariant
            0 <= i <= s.len(),
            buf@ == seasonings_debug(st, s@.take(i as int)),
        decreases s.len() - i,
    {
        proof {
            assert(s@.take(i + 1).drop_last() =~= s@.take(i as int));
            assert(s@.take(i + 1).last() == s@[i as int]);
        }
        if i > 0 {
            buf.append(",");
        } else {
            proof {
                assert(buf@ =~= Seq::<char>::empty());
            }
        }
        buf.append(CellIngredient::from_store(st, s[i]).debug().as_str());
        proof {
            if i == 0 {
                assert(buf@ =~= seasonings_debug(st, s@.take(1)));
            }
        }
        i += 1;
    }
    proof {
        assert(s@.take(i as int) =~= s@);
    }
    buf
}

fn seasonings_html_text(st: &State, opts: &HTMLTableOptions, s: &Vec<IngredientRef>) -> (r: String)
    ensures
        r@ == seasonings_html(st, opts, s@),
{
    let mut buf = String::new();
    let mut i: usize = 0;
    while i < s.len()
        invariant
            0 <= i <= s.len(),
            buf@ == seasonings_html(st, opts, s@.take(i as int)),
        decreases s.len() - i,
    {
        proof {
            assert(s@.take(i + 1).drop_last() =~= s@.take(i as int));
            assert(s@.take(i + 1).last() == s@[i as int]);
        }
        buf.append(CellIngredient::from_store(st, s[i]).html(opts).as_str());
        buf.append(" ");
        i += 1;
    }
    proof {
        assert(s@.take(i as int) =~= s@);
    }
    buf
}

impl CellData {
    pub open spec fn content(&self) -> ContentV {
        match self {
            CellData::Ingredient { i } => ContentV::Ingredient(*i),
            CellData::Step { step } => ContentV::Step(step@),
            CellData::Done => ContentV::Done,
        }
    }

    /// What the cell shows, as plain text.
    pub fn debug(&self, st: &State) -> (r: String)
        ensures
            r@ == content_debug(st, self.content()),
    {
        match self {
            CellData::Done => owned("<>"),
            CellData::Step { step } => {
                let mut buf = st.text(step.action.value);
                buf.append(" & ");
                buf.append(seasonings_debug_text(st, &step.seasonings).as_str());
                buf
            },
            CellData::Ingredient { i } => CellIngredient::from_store(st, *i).debug(),
        }
    }
}

impl Cell {
    /// What the cell shows, as HTML.
    pub fn html(&self, st: &State, opts: &HTMLTableOptions) -> (r: String)
        ensures
            r@ == content_html(st, opts, self.contents.content()),
    {
        match &self.contents {
            CellData::Done => owned("<>"),
            CellData::Step { step } => {
                let mut buf = st.text(step.action.value);
                if step.seasonings.len() == 0 {
                    return buf;
                }
                buf.append("<div class=\"");
                buf.append(opts.seasonings_class.as_str());
                buf.append("\">");
                buf.append(seasonings_html_text(st, opts, &step.seasonings).as_str());
                buf.append("</div>");
                buf
            },
            CellData::Ingredient { i } => CellIngredient::from_store(st, *i).html(opts),
        }
    }

    /// The class of the cell, by what it shows.
    pub fn html_class<'b>(&self, opts: &'b HTMLTableOptions) -> (r: &'b str)
        ensures
            r@ == content_class(opts, self.contents.content()),
    {
        match self.contents {
            CellData::Ingredient { .. } => opts.ingredient_class.as_str(),
            CellData::Step { .. } => opts.action_class.as_str(),
            CellData::Done => opts.done_class.as_str(),
        }
    }
}

/// One table cell as HTML.
pub open spec fn cell_html(st: &State, opts: &HTMLTableOptions, c: CellV) -> Seq<char> {
    "<td class=\""@ + content_class(opts, c.content) + "\" rowspan=\""@ + decimal(c.rowspan)
        + "\" colspan=\""@ + decimal(c.colspan) + "\">"@ + content_html(st, opts, c.content)
        + "</td>"@
}

pub open spec fn cells_html(st: &State, opts: &HTMLTableOptions, r: Seq<CellV>) -> Seq<char>
    decreases r.len(),
{
    if r.len() == 0 {
        Seq::empty()
    } else {
        cells_html(st, opts, r.drop_last()) + cell_html(st, opts, r.last())
    }
}

pub open spec fn rows_html(st: &State, opts: &HTMLTableOptions, g: Seq<Seq<CellV>>) -> Seq<char>
    decreases g.len(),
{
    if g.len() == 0 {
        Seq::empty()
    } else {
        rows_html(st, opts, g.drop_last()) + "  <tr>"@ + cells_html(st, opts, g.last())
            + "  </tr>\n"@
    }
}

/// The whole table as HTML: one `tr` per row, one `td` per cell with its
/// class, row span and column span.
pub open spec fn table_html(st: &State, opts: &HTMLTableOptions, g: Seq<Seq<CellV>>) -> Seq<char> {
    "<table>\n"@ + rows_html(st, opts, g) + "</table\n"@
}

/// One cell as ` (colspan, rowspan, text)`.
pub open spec fn cell_debug(st: &State, c: CellV) -> Seq<char> {
    " ("@ + decimal(c.colspan) + ", "@ + decimal(c.rowspan) + ", "@ + content_debug(st, c.content)
        + ")"@
}

pub open spec fn cells_debug(st: &State, r: Seq<CellV>) -> Seq<char>
    decreases r.len(),
{
    if r.len() == 0 {
        Seq::empty()
    } else {
        cells_debug(st, r.drop_last()) + cell_debug(st, r.last())
    }
}

/// The whole table as text, one line per row.
pub open spec fn table_debug(st: &State, g: Seq<Seq<CellV>>) -> Seq<char>
    decreases g.len(),
{
    if g.len() == 0 {
        Seq::empty()
    } else {
        table_debug(st, g.drop_last()) + cells_debug(st, g.last()) + "\n"@
    }
}

/// One cell as a `td` element.
fn td(st: &State, opts: &HTMLTableOptions, cell: &Cell) -> (r: String)
    ensures
        r@ == cell_html(st, opts, cell@),
{
    let mut buf = String::new();
    buf.append("<td class=\"");
    buf.append(cell.html_class(opts));
    buf.append("\" rowspan=\"");
    buf.append(decimal_string(cell.rowspan).as_str());
    buf.append("\" colspan=\"");
    buf.append(decimal_string(cell.colspan).as_str());
    buf.append("\">");
    buf.append(cell.html(st, opts).as_str());
    buf.append("</td>");
    proof {
        assert(buf@ =~= cell_html(st, opts, cell@));
    }
    buf
}

/// One cell as ` (colspan, rowspan, text)`.
fn cell_line(st: &State, col: &Cell) -> (r: String)
    ensures
        r@ == cell_debug(st, col@),
{
    let mut buf = String::new();
    buf.append(" (");
    buf.append(decimal_string(col.colspan).as_str());
    buf.append(", ");
    buf.append(decimal_string(col.rowspan).as_str());
    buf.append(", ");
    buf.append(col.contents.debug(st).as_str());
    buf.append(")");
    proof {
        assert(buf@ =~= cell_debug(st, col@));
    }
    buf
}

impl<'a> Table<'a> {
    /// The rows of cells.
    pub fn rows(&self) -> (r: &Vec<Vec<Cell>>)
        ensures
            grid_view(r@) == self.grid(),
    {
        &self.table_data
    }

    /// The table as HTML.
    pub fn html(&self, opts: &HTMLTableOptions) -> (r: String)
        ensures
            r@ == table_html(self.store(), opts, self.grid()),
    {
        let ghost g = self.grid();
        let st = self.state;
        let mut buf = String::new();
        buf.append("<table>\n");
        proof {
            assert(g.take(0) =~= Seq::<Seq<CellV>>::empty());
        }
        let mut i: usize = 0;
        while i < self.table_data.len()
            invariant
                0 <= i <= self.table_data.len(),
                g == self.grid(),
                st == self.store(),
                buf@ == "<table>\n"@ + rows_html(st, opts, g.take(i as int)),
            decreases self.table_data.len() - i,
        {
            let row = &self.table_data[i];
            let ghost rv = g[i as int];
            proof {
                assert(rv == row_view(*row));
                assert(rv.take(0) =~= Seq::<CellV>::empty());
            }
            let ghost start = buf@;
            buf.append("  <tr>");
            let mut j: usize = 0;
            while j < row.len()
                invariant
                    0 <= j <= row.len(),
                    rv == row_view(*row),
                    buf@ == start + "  <tr>"@ + cells_html(st, opts, rv.take(j as int)),
                decreases row.len() - j,
            {
                let cell = &row[j];
                proof {
                    assert(rv.take(j + 1).drop_last() =~= rv.take(j as int));
                    assert(rv.take(j + 1).last() == cell@);
                }
                buf.append(td(st, opts, cell).as_str());
                proof {
                    assert(buf@ =~= start + "  <tr>"@ + cells_html(st, opts, rv.take(j + 1)));
                }
                j += 1;
            }
            buf.append("  </tr>\n");
            proof {
                assert(rv.take(j as int) =~= rv);
                assert(g.take(i + 1).drop_last() =~= g.take(i as int));
                assert(g.take(i + 1).last() == rv);
                assert(buf@ =~= "<table>\n"@ + rows_html(st, opts, g.take(i + 1)));
            }
            i += 1;
        }
        buf.append("</table\n");
        proof {
            assert(g.take(i as int) =~= g);
        }
        buf
    }

    /// The table as text: one line per row, each cell as
    /// ` (colspan, rowspan, text)`.
    pub fn debug(&self) -> (r: String)
        ensures
            r@ == table_debug(self.store(), self.grid()),
    {
        let ghost g = self.grid();
        let st = self.state;
        let mut buf = String::new();
        proof {
            assert(g.take(0) =~= Seq::<Seq<CellV>>::empty());
        }
        let mut i: usize = 0;
        while i < self.table_data.len()
            invariant
                0 <= i <= self.table_data.len(),
                g == self.grid(),
                st == self.store(),
                buf@ == table_debug(st, g.take(i as int)),
            decreases self.table_data.len() - i,
        {
            let row = &self.table_data[i];
            let ghost rv = g[i as int];
            proof {
                assert(rv == row_view(*row));
                assert(rv.take(0) =~= Seq::<CellV>::empty());
            }
            let ghost start = buf@;
            let mut j: usize = 0;
            while j < row.len()
                invariant
                    0 <= j <= row.len(),
                    rv == row_view(*row),
                    buf@ == start + cells_debug(st, rv.take(j as int)),
                decreases row.len() - j,
            {
                let col = &row[j];
                proof {
                    assert(rv.take(j + 1).drop_last() =~= rv.take(j as int));
                    assert(rv.take(j + 1).last() == col@);
                }
                buf.append(cell_line(st, col).as_str());
                proof {
                    assert(buf@ =~= start + cells_debug(st, rv.take(j + 1)));
                }
                j += 1;
            }
            buf.append("\n");
            proof {
                assert(rv.take(j as int) =~= rv);
                assert(g.take(i + 1).drop_last() =~= g.take(i as int));
                assert(g.take(i + 1).last() == rv);
                assert(buf@ =~= table_debug(st, g.take(i + 1)));
            }
            i += 1;
        }
        proof {
            assert(g.take(i as int) =~= g);
        }
        buf
    }
}

} // verus!
