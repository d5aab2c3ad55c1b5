//! What holds of every tile, every catalog and every fill.

use crate::fill::{
    all_open, around, candidates, cell, fallback_of, fitting_below, layout, lemma_cell_in_grid,
    lemma_fitting_below, lemma_start_sound, lemma_step_progress, open_count, outcome, pick_spec,
    placed, run, sound, stale_count, start, step, Around, Progress, Slot,
};
use crate::rng::seeded_word;
use crate::tile::{
    clones_exactly, edges_cloned, lemma_exact_edges, shares_label, tile_cloned, Edges, Tile,
};
use crate::tile_model::{catalog_of, shows};
use vstd::prelude::*;

verus! {

/// Four quarter turns bring every side back to where it was; two quarter
/// turns are a half turn, and three are a three-quarter turn.
pub proof fn law_turns_compose<U>(e: Edges<U>)
    ensures
        e.quarter_turn().quarter_turn().quarter_turn().quarter_turn() == e,
        e.quarter_turn().quarter_turn() == e.half_turn(),
        e.quarter_turn().quarter_turn().quarter_turn() == e.three_quarter_turn(),
        e.half_turn().half_turn() == e,
{
}

/// Where cloning a label gives an equal label, tiles made by rotation have
/// exactly the turned edges: a tile rotated by a quarter turn four times in a
/// row has the edges it set out with, and a tile rotated by a quarter turn
/// twice has the edges of the tile rotated by a half turn once.
///
/// `r1` to `r4` stand for the edges after one to four quarter turns, each made
/// from the one before, and `half` for the edges after one half turn.
pub proof fn law_rotations<U: Clone>(
    e: Edges<U>,
    r1: Edges<U>,
    r2: Edges<U>,
    r3: Edges<U>,
    r4: Edges<U>,
    half: Edges<U>,
)
    requires
        clones_exactly::<U>(),
        edges_cloned(e.quarter_turn(), r1),
        edges_cloned(r1.quarter_turn(), r2),
        edges_cloned(r2.quarter_turn(), r3),
        edges_cloned(r3.quarter_turn(), r4),
        edges_cloned(e.half_turn(), half),
    ensures
        r4 == e,
        r2 == half,
{
    lemma_exact_edges(e.quarter_turn(), r1);
    lemma_exact_edges(r1.quarter_turn(), r2);
    lemma_exact_edges(r2.quarter_turn(), r3);
    lemma_exact_edges(r3.quarter_turn(), r4);
    lemma_exact_edges(e.half_turn(), half);
}

/// With an empty catalog the fill leaves every cell of the grid empty.
pub proof fn law_empty_catalog<U: PartialEq>(cat: Seq<Edges<U>>, w: nat, h: nat, seed: u64)
    requires
        cat.len() == 0,
    ensures
        layout(cat, w, h, seed).len() == w * h,
        forall|i: int| 0 <= i < w * h ==> layout(cat, w, h, seed)[i] is None,
{
}

/// Two grids that show the fill of the same catalog with the same dimensions
/// and the same seed agree cell by cell: both are empty there, or both hold a
/// clone of the same tile of the catalog. Where cloning gives equal values,
/// they hold the same identity and the same edges.
pub proof fn law_deterministic<T: Clone, U: Clone + PartialEq>(
    tiles: Seq<Tile<T, U>>,
    w: nat,
    h: nat,
    seed: u64,
    first: Seq<Option<Tile<T, U>>>,
    second: Seq<Option<Tile<T, U>>>,
)
    requires
        shows(tiles, layout(catalog_of(tiles), w, h, seed), first),
        shows(tiles, layout(catalog_of(tiles), w, h, seed), second),
    ensures
        first.len() == second.len(),
        forall|i: int| 0 <= i < first.len() ==> (#[trigger] first[i] is Some <==> second[i] is Some),
        forall|i: int|
            0 <= i < first.len() && #[trigger] first[i] is Some ==> exists|k: int|
                0 <= k && tile_cloned(#[trigger] tiles[k], first[i]->0) && tile_cloned(
                    tiles[k],
                    second[i]->0,
                ),
        clones_exactly::<T>() && clones_exactly::<U>() ==> forall|i: int|
            0 <= i < first.len() && #[trigger] first[i] is Some ==> first[i]->0.identity()
                == second[i]->0.identity() && first[i]->0.edges() == second[i]->0.edges(),
{
    let plan = layout(catalog_of(tiles), w, h, seed);
    assert forall|i: int| 0 <= i < first.len() implies (#[trigger] first[i] is Some
        <==> second[i] is Some) by {
        let _ = plan[i];
    }
    assert forall|i: int| 0 <= i < first.len() && #[trigger] first[i] is Some implies exists|
        k: int,
    |
        0 <= k && tile_cloned(#[trigger] tiles[k], first[i]->0) && tile_cloned(
            tiles[k],
            second[i]->0,
        ) by {
        let k = plan[i]->0 as int;
        assert(tile_cloned(tiles[k], first[i]->0));
    }
    if clones_exactly::<T>() && clones_exactly::<U>() {
        assert forall|i: int| 0 <= i < first.len() && #[trigger] first[i] is Some implies first[i]->0.identity()
            == second[i]->0.identity() && first[i]->0.edges() == second[i]->0.edges() by {
            let k = plan[i]->0 as int;
            assert(tile_cloned(tiles[k], first[i]->0));
            assert(tile_cloned(tiles[k], second[i]->0));
            lemma_exact_edges(tiles[k].edges(), first[i]->0.edges());
            lemma_exact_edges(tiles[k].edges(), second[i]->0.edges());
        }
    }
}

/// The neighbours that demand nothing.
pub open spec fn no_neighbours() -> Around {
    Around { up: None, right: None, down: None, left: None }
}

/// A cell without decided neighbours has the whole catalog as candidates.
pub proof fn lemma_unconstrained<U: PartialEq>(cat: Seq<Edges<U>>, n: nat)
    requires
        n <= usize::MAX,
    ensures
        fitting_below(cat, no_neighbours(), n).len() == n,
        forall|k: int| 0 <= k < n ==> #[trigger] fitting_below(cat, no_neighbours(), n)[k] == k,
    decreases n,
{
    if n > 0 {
        lemma_unconstrained(cat, (n - 1) as nat);
    }
}

/// A grid of one cell is always filled, whatever the catalog holds, as long
/// as it holds a tile: the cell gets the tile that the fourth word of the
/// stream chooses in the whole catalog.
pub proof fn law_single_cell<U: PartialEq>(cat: Seq<Edges<U>>, seed: u64)
    requires
        0 < cat.len() <= usize::MAX,
    ensures
        layout(cat, 1, 1, seed).len() == 1,
        layout(cat, 1, 1, seed)[0] == Some(
            pick_spec(seeded_word(seed, 3), cat.len()) as usize,
        ),
        outcome(cat, 1, 1, seed).forced is None,
{
    let fallback = fallback_of(cat.len(), seed);
    let p = start(1, 1, seed);
    let word = seeded_word(seed, 3);
    assert(p.frontier.last() == (0usize, 0usize));
    assert(p.frontier.drop_last() =~= Seq::<(usize, usize)>::empty());
    assert(around(p.slots, 1, 1, 0, 0) == no_neighbours());
    lemma_unconstrained(cat, cat.len());
    let q = step(cat, 1, 1, fallback, p, word);
    assert(q.frontier =~= Seq::<(usize, usize)>::empty());
    let k = pick_spec(word, cat.len());
    assert(0 <= k < cat.len()) by (nonlinear_arith)
        requires
            k == word as int % cat.len() as int,
            cat.len() > 0,
            word >= 0,
    ;
    assert(q.slots =~= seq![Slot::Placed(k as usize)]);
    lemma_start_sound(1, 1, cat.len(), seed);
    lemma_step_progress(cat, 1, 1, fallback, p, word);
    assert(run(cat, 1, 1, fallback, seed, p) == run(cat, 1, 1, fallback, seed, q));
    assert(run(cat, 1, 1, fallback, seed, q) == q);
}

/// The tile at catalog position `a` and the tile `b` to its right touch: the
/// labels that they turn to each other share a label.
pub open spec fn touch_across<U: PartialEq>(cat: Seq<Edges<U>>, a: int, b: int) -> bool {
    shares_label(cat[a].right, cat[b].left) || shares_label(cat[b].left, cat[a].right)
}

/// The tile at catalog position `a` and the tile `b` below it touch.
pub open spec fn touch_down<U: PartialEq>(cat: Seq<Edges<U>>, a: int, b: int) -> bool {
    shares_label(cat[a].down, cat[b].up) || shares_label(cat[b].up, cat[a].down)
}

/// The cell `(x, y)` agrees with its right and its lower neighbour: where both
/// cells of such a pair are decided and neither is the forced cell, their
/// tiles touch.
pub open spec fn agrees<U: PartialEq>(
    cat: Seq<Edges<U>>,
    w: nat,
    h: nat,
    slots: Seq<Slot>,
    forced: Option<int>,
    x: int,
    y: int,
) -> bool {
    let i = cell(w, x, y);
    &&& x + 1 < w && forced != Some(i) && forced != Some(i + 1) ==> match (
        placed(slots, i),
        placed(slots, i + 1),
    ) {
        (Some(a), Some(b)) => touch_across(cat, a as int, b as int),
        _ => true,
    }
    &&& y + 1 < h && forced != Some(i) && forced != Some(i + w) ==> match (
        placed(slots, i),
        placed(slots, i + w),
    ) {
        (Some(a), Some(b)) => touch_down(cat, a as int, b as int),
        _ => true,
    }
}

/// Every pair of adjacent decided cells touches, unless one of the two is the
/// forced cell.
pub open spec fn consistent<U: PartialEq>(
    cat: Seq<Edges<U>>,
    w: nat,
    h: nat,
    slots: Seq<Slot>,
    forced: Option<int>,
) -> bool {
    forall|x: int, y: int|
        0 <= x < w && 0 <= y < h ==> #[trigger] agrees(cat, w, h, slots, forced, x, y)
}

/// The forced cell, if there is one, lies in the grid and holds the fallback
/// tile.
pub open spec fn forced_holds(slots: Seq<Slot>, forced: Option<int>, fallback: usize) -> bool {
    forced matches Some(c) ==> 0 <= c < slots.len() && slots[c] == Slot::Placed(fallback)
}

/// Two coordinates of the grid with the same place are the same coordinate.
pub proof fn lemma_cell_injective(w: nat, x: int, y: int, x2: int, y2: int)
    requires
        0 <= x < w,
        0 <= x2 < w,
        cell(w, x, y) == cell(w, x2, y2),
    ensures
        x == x2,
        y == y2,
{
    assert(y == y2) by (nonlinear_arith)
        requires
            0 <= x < w,
            0 <= x2 < w,
            w * y + x == w * y2 + x2,
    ;
}

/// The places of the right and the lower neighbour.
pub proof fn lemma_cell_neighbours(w: nat, x: int, y: int)
    ensures
        cell(w, x + 1, y) == cell(w, x, y) + 1,
        cell(w, x - 1, y) == cell(w, x, y) - 1,
        cell(w, x, y + 1) == cell(w, x, y) + w,
        cell(w, x, y - 1) == cell(w, x, y) - w,
{
    assert(w * (y + 1) == w * y + w) by (nonlinear_arith);
    assert(w * (y - 1) == w * y - w) by (nonlinear_arith);
}

/// A visit spends the fallback at most once, and places nothing else outside
/// the candidate set. It changes no cell but the one it visits, and that one
/// only if it was open. Once a cell has been forced, none is forced again; a
/// visit that forces a cell found no candidate for it; and a visit that
/// places a tile without forcing it took the tile from the candidates.
pub proof fn law_fallback_once<U: PartialEq>(
    cat: Seq<Edges<U>>,
    w: nat,
    h: nat,
    fallback: usize,
    p: Progress,
    word: u64,
)
    requires
        sound(p, w, h, cat.len()),
        w * h <= usize::MAX,
        cat.len() <= usize::MAX,
        p.frontier.len() > 0,
    ensures
        ({
            let q = step(cat, w, h, fallback, p, word);
            let (x, y) = p.frontier.last();
            let i = cell(w, x as int, y as int);
            let options = candidates(cat, around(p.slots, w, h, x as int, y as int));
            &&& 0 <= i < p.slots.len()
            &&& q.slots.len() == p.slots.len()
            &&& forall|c: int| 0 <= c < p.slots.len() && c != i ==> q.slots[c] == p.slots[c]
            &&& !(p.slots[i] is Open) ==> q.slots[i] == p.slots[i]
            &&& p.forced is Some ==> q.forced == p.forced
            &&& q.forced != p.forced ==> p.slots[i] is Open && q.forced == Some(i) && q.slots[i]
                == Slot::Placed(fallback) && options.len() == 0
            &&& q.forced == p.forced && p.slots[i] is Open ==> (q.slots[i] matches Slot::Placed(k)
                ==> options.contains(k))
        }),
{
    let (x, y) = p.frontier.last();
    lemma_cell_in_grid(w, h, x as int, y as int);
    let options = candidates(cat, around(p.slots, w, h, x as int, y as int));
    if options.len() > 0 {
        let j = pick_spec(word, options.len());
        assert(0 <= j < options.len()) by (nonlinear_arith)
            requires
                j == word as int % options.len() as int,
                options.len() > 0,
                word >= 0,
        ;
    }
}

/// A visit keeps the grid consistent, and keeps the fallback tile in the
/// forced cell.
pub proof fn lemma_step_consistent<U: PartialEq>(
    cat: Seq<Edges<U>>,
    w: nat,
    h: nat,
    fallback: usize,
    p: Progress,
    word: u64,
)
    requires
        sound(p, w, h, cat.len()),
        w * h <= usize::MAX,
        cat.len() <= usize::MAX,
        p.frontier.len() > 0,
        consistent(cat, w, h, p.slots, p.forced),
        forced_holds(p.slots, p.forced, fallback),
    ensures
        consistent(
            cat,
            w,
            h,
            step(cat, w, h, fallback, p, word).slots,
            step(cat, w, h, fallback, p, word).forced,
        ),
        forced_holds(
            step(cat, w, h, fallback, p, word).slots,
            step(cat, w, h, fallback, p, word).forced,
            fallback,
        ),
{
    let q = step(cat, w, h, fallback, p, word);
    let (x0, y0) = p.frontier.last();
    let i0 = cell(w, x0 as int, y0 as int);
    let a = around(p.slots, w, h, x0 as int, y0 as int);
    let options = candidates(cat, a);
    law_fallback_once(cat, w, h, fallback, p, word);
    lemma_fitting_below(cat, a, cat.len());
    lemma_cell_neighbours(w, x0 as int, y0 as int);
    assert forall|x: int, y: int| 0 <= x < w && 0 <= y < h implies #[trigger] agrees(
        cat,
        w,
        h,
        q.slots,
        q.forced,
        x,
        y,
    ) by {
        let i = cell(w, x, y);
        assert(agrees(cat, w, h, p.slots, p.forced, x, y));
        lemma_cell_in_grid(w, h, x, y);
        lemma_cell_neighbours(w, x, y);
        if x + 1 < w {
            lemma_cell_in_grid(w, h, x + 1, y);
            if i == i0 {
                lemma_cell_injective(w, x, y, x0 as int, y0 as int);
            }
            if i + 1 == i0 {
                lemma_cell_injective(w, x + 1, y, x0 as int, y0 as int);
            }
        }
        if y + 1 < h {
            lemma_cell_in_grid(w, h, x, y + 1);
            if i == i0 {
                lemma_cell_injective(w, x, y, x0 as int, y0 as int);
            }
            if i + w == i0 {
                lemma_cell_injective(w, x, y + 1, x0 as int, y0 as int);
            }
        }
    }
}

/// A run keeps the grid consistent, and keeps the fallback tile in the
/// forced cell.
pub proof fn lemma_run_consistent<U: PartialEq>(
    cat: Seq<Edges<U>>,
    w: nat,
    h: nat,
    fallback: usize,
    seed: u64,
    p: Progress,
)
    requires
        sound(p, w, h, cat.len()),
        w * h <= usize::MAX,
        cat.len() <= usize::MAX,
        fallback < cat.len(),
        consistent(cat, w, h, p.slots, p.forced),
        forced_holds(p.slots, p.forced, fallback),
    ensures
        consistent(
            cat,
            w,
            h,
            run(cat, w, h, fallback, seed, p).slots,
            run(cat, w, h, fallback, seed, p).forced,
        ),
        forced_holds(
            run(cat, w, h, fallback, seed, p).slots,
            run(cat, w, h, fallback, seed, p).forced,
            fallback,
        ),
    decreases open_count(p.slots), stale_count(p.frontier, p.slots, w),
{
    if p.frontier.len() > 0 {
        let word = seeded_word(seed, p.drawn);
        lemma_step_progress(cat, w, h, fallback, p, word);
        lemma_step_consistent(cat, w, h, fallback, p, word);
        lemma_run_consistent(cat, w, h, fallback, seed, step(cat, w, h, fallback, p, word));
    }
}

/// In the grid that a fill produces, any two adjacent filled cells hold tiles
/// that touch, unless one of the two is the forced cell. There is at most one
/// forced cell, and it holds the tile that the fallback places.
pub proof fn law_locally_consistent<U: PartialEq>(cat: Seq<Edges<U>>, w: nat, h: nat, seed: u64)
    requires
        w > 0,
        h > 0,
        w * h <= usize::MAX,
        cat.len() <= usize::MAX,
    ensures
        consistent(cat, w, h, outcome(cat, w, h, seed).slots, outcome(cat, w, h, seed).forced),
        forced_holds(
            outcome(cat, w, h, seed).slots,
            outcome(cat, w, h, seed).forced,
            fallback_of(cat.len(), seed),
        ),
{
    let p = start(w, h, seed);
    assert forall|x: int, y: int| 0 <= x < w && 0 <= y < h implies #[trigger] agrees(
        cat,
        w,
        h,
        all_open(w, h),
        None,
        x,
        y,
    ) by {
        lemma_cell_in_grid(w, h, x, y);
        lemma_cell_neighbours(w, x, y);
        if x + 1 < w {
            lemma_cell_in_grid(w, h, x + 1, y);
        }
        if y + 1 < h {
            lemma_cell_in_grid(w, h, x, y + 1);
        }
    }
    if cat.len() > 0 {
        assert(w <= w * h && h <= w * h) by (nonlinear_arith)
            requires
                w > 0,
                h > 0,
        ;
        let fallback = fallback_of(cat.len(), seed);
        assert(0 <= pick_spec(seeded_word(seed, 2), cat.len()) < cat.len()) by (nonlinear_arith)
            requires
                pick_spec(seeded_word(seed, 2), cat.len()) == seeded_word(seed, 2) as int
                    % cat.len() as int,
                cat.len() > 0,
        ;
        lemma_start_sound(w, h, cat.len(), seed);
        lemma_run_consistent(cat, w, h, fallback, seed, p);
    }
}

/// A visit never leaves the grid: the coordinate it takes off a sound frontier
/// lies in the grid and has its place among the cells, and so does every
/// coordinate that it schedules, since the state it ends in is sound again.
pub proof fn law_visits_stay_in_grid<U: PartialEq>(
    cat: Seq<Edges<U>>,
    w: nat,
    h: nat,
    fallback: usize,
    p: Progress,
    word: u64,
)
    requires
        sound(p, w, h, cat.len()),
        w * h <= usize::MAX,
        cat.len() <= usize::MAX,
        fallback < cat.len(),
        p.frontier.len() > 0,
    ensures
        p.frontier.last().0 < w,
        p.frontier.last().1 < h,
        0 <= cell(w, p.frontier.last().0 as int, p.frontier.last().1 as int) < p.slots.len(),
        sound(step(cat, w, h, fallback, p, word), w, h, cat.len()),
{
    lemma_cell_in_grid(w, h, p.frontier.last().0 as int, p.frontier.last().1 as int);
    lemma_step_progress(cat, w, h, fallback, p, word);
}

} // verus!
