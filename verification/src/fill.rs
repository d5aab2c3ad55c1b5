//! The mathematical model of a fill: the cells, the frontier of cells still to
//! visit, one visit, and the whole run from a seed.

use crate::rng::seeded_word;
use crate::tile::{shares_label, Edges};
use vstd::prelude::*;

verus! {

/// What is known of one cell while a fill runs.
#[derive(Clone, Copy, Debug)]
pub enum Slot {
    /// Not decided yet.
    Open,
    /// Visited after the fallback was spent, and nothing in the catalog fitted.
    Stuck,
    /// Holds the catalog entry at this position.
    Placed(usize),
}

/// The catalog positions of the decided neighbours of a cell, side by side.
#[derive(Clone, Copy, Debug)]
pub struct Around {
    pub up: Option<usize>,
    pub right: Option<usize>,
    pub down: Option<usize>,
    pub left: Option<usize>,
}

/// A fill in progress.
pub struct Progress {
    /// The cells, row by row.
    pub slots: Seq<Slot>,
    /// The coordinates `(x, y)` still to visit; the last one is visited next.
    pub frontier: Seq<(usize, usize)>,
    /// The cell that the fallback filled, once it has been spent.
    pub forced: Option<int>,
    /// How many words of the stream have been consumed.
    pub drawn: nat,
}

/// The place of cell `(x, y)` in a row-major grid of width `w`.
pub open spec fn cell(w: nat, x: int, y: int) -> int {
    w * y + x
}

/// The catalog position that cell `i` holds, if it is decided.
pub open spec fn placed(slots: Seq<Slot>, i: int) -> Option<usize> {
    match slots[i] {
        Slot::Placed(k) => Some(k),
        _ => None,
    }
}

/// What the decided neighbours of `(x, y)` demand. A side at the rim of the
/// grid, or one whose neighbour is undecided, demands nothing.
pub open spec fn around(slots: Seq<Slot>, w: nat, h: nat, x: int, y: int) -> Around {
    Around {
        up: if y > 0 {
            placed(slots, cell(w, x, y - 1))
        } else {
            None
        },
        right: if x + 1 < w {
            placed(slots, cell(w, x + 1, y))
        } else {
            None
        },
        down: if y + 1 < h {
            placed(slots, cell(w, x, y + 1))
        } else {
            None
        },
        left: if x > 0 {
            placed(slots, cell(w, x - 1, y))
        } else {
            None
        },
    }
}

/// Catalog entry `k` may stand among the neighbours `a`: on every side with a
/// decided neighbour, its labels touch those that the neighbour turns to it.
pub open spec fn fits<U: PartialEq>(cat: Seq<Edges<U>>, k: int, a: Around) -> bool {
    &&& a.up matches Some(n) ==> shares_label(cat[k].up, cat[n as int].down)
    &&& a.right matches Some(n) ==> shares_label(cat[k].right, cat[n as int].left)
    &&& a.down matches Some(n) ==> shares_label(cat[k].down, cat[n as int].up)
    &&& a.left matches Some(n) ==> shares_label(cat[k].left, cat[n as int].right)
}

/// The positions below `n` of the catalog entries that fit, in rising order.
pub open spec fn fitting_below<U: PartialEq>(cat: Seq<Edges<U>>, a: Around, n: nat) -> Seq<usize>
    decreases n,
{
    if n == 0 {
        Seq::empty()
    } else {
        let before = fitting_below(cat, a, (n - 1) as nat);
        if fits(cat, n - 1, a) {
            before.push((n - 1) as usize)
        } else {
            before
        }
    }
}

/// The candidate set: every catalog position that fits, in catalog order.
pub open spec fn candidates<U: PartialEq>(cat: Seq<Edges<U>>, a: Around) -> Seq<usize> {
    fitting_below(cat, a, cat.len())
}

/// Whether a visit schedules its neighbour `i`. A decided neighbour never is;
/// an open one always is; a stuck one only by a cell that is not stuck itself.
/// Nothing will ever fit a stuck cell, so two stuck neighbours that scheduled
/// each other would do so for ever and change nothing.
pub open spec fn wanted(slots: Seq<Slot>, i: int, from_stuck: bool) -> bool {
    match slots[i] {
        Slot::Open => true,
        Slot::Stuck => !from_stuck,
        Slot::Placed(_) => false,
    }
}

/// `frontier` with `c` on top if `wish` holds, else unchanged.
pub open spec fn push_if(frontier: Seq<(usize, usize)>, wish: bool, c: (usize, usize)) -> Seq<
    (usize, usize),
> {
    if wish {
        frontier.push(c)
    } else {
        frontier
    }
}

/// The frontier after a visit of `(x, y)` has scheduled its neighbours: up,
/// right, down, left, in this order, each one that is in the grid and wanted.
pub open spec fn schedule(
    frontier: Seq<(usize, usize)>,
    slots: Seq<Slot>,
    w: nat,
    h: nat,
    x: int,
    y: int,
    from_stuck: bool,
) -> Seq<(usize, usize)> {
    let f1 = push_if(
        frontier,
        y > 0 && wanted(slots, cell(w, x, y - 1), from_stuck),
        (x as usize, (y - 1) as usize),
    );
    let f2 = push_if(
        f1,
        x + 1 < w && wanted(slots, cell(w, x + 1, y), from_stuck),
        ((x + 1) as usize, y as usize),
    );
    let f3 = push_if(
        f2,
        y + 1 < h && wanted(slots, cell(w, x, y + 1), from_stuck),
        (x as usize, (y + 1) as usize),
    );
    push_if(
        f3,
        x > 0 && wanted(slots, cell(w, x - 1, y), from_stuck),
        ((x - 1) as usize, y as usize),
    )
}

/// The choice that a word makes among `count` options.
pub open spec fn pick_spec(word: u64, count: nat) -> int {
    word as int % count as int
}

/// One visit: the top of the frontier is taken off and looked at.
///
/// A decided cell is passed over. A stuck cell only schedules its open
/// neighbours. An open cell schedules its undecided neighbours and is then
/// decided: by `word` among its candidates if there are any; else by the
/// fallback, which places `fallback` and is spent; else it becomes stuck.
pub open spec fn step<U: PartialEq>(
    cat: Seq<Edges<U>>,
    w: nat,
    h: nat,
    fallback: usize,
    p: Progress,
    word: u64,
) -> Progress {
    let (x, y) = p.frontier.last();
    let rest = p.frontier.drop_last();
    let i = cell(w, x as int, y as int);
    match p.slots[i] {
        Slot::Placed(_) => Progress { frontier: rest, ..p },
        Slot::Stuck => Progress {
            frontier: schedule(rest, p.slots, w, h, x as int, y as int, true),
            ..p
        },
        Slot::Open => {
            let frontier = schedule(rest, p.slots, w, h, x as int, y as int, false);
            let options = candidates(cat, around(p.slots, w, h, x as int, y as int));
            if options.len() > 0 {
                Progress {
                    slots: p.slots.update(i, Slot::Placed(options[pick_spec(word, options.len())])),
                    frontier,
                    forced: p.forced,
                    drawn: p.drawn + 1,
                }
            } else if p.forced is None {
                Progress {
                    slots: p.slots.update(i, Slot::Placed(fallback)),
                    frontier,
                    forced: Some(i),
                    drawn: p.drawn,
                }
            } else {
                Progress { slots: p.slots.update(i, Slot::Stuck), frontier, ..p }
            }
        },
    }
}

/// The state is one that a fill over a `w` by `h` grid and a catalog of `n`
/// entries can be in: every cell is there, every scheduled coordinate lies in
/// the grid, and every placed position lies in the catalog.
pub open spec fn sound(p: Progress, w: nat, h: nat, n: nat) -> bool {
    &&& w > 0
    &&& h > 0
    &&& p.slots.len() == w * h
    &&& forall|j: int|
        0 <= j < p.frontier.len() ==> (#[trigger] p.frontier[j]).0 < w && p.frontier[j].1 < h
    &&& forall|i: int|
        0 <= i < p.slots.len() ==> (#[trigger] p.slots[i] matches Slot::Placed(k) ==> k < n)
}

/// How many cells are still open.
pub open spec fn open_count(slots: Seq<Slot>) -> nat
    decreases slots.len(),
{
    if slots.len() == 0 {
        0
    } else {
        open_count(slots.drop_last()) + if slots.last() is Open {
            1nat
        } else {
            0nat
        }
    }
}

/// How many scheduled coordinates name a cell that is no longer open.
pub open spec fn stale_count(frontier: Seq<(usize, usize)>, slots: Seq<Slot>, w: nat) -> nat
    decreases frontier.len(),
{
    if frontier.len() == 0 {
        0
    } else {
        let (x, y) = frontier.last();
        stale_count(frontier.drop_last(), slots, w) + if slots[cell(w, x as int, y as int)] is Open {
            0nat
        } else {
            1nat
        }
    }
}

/// A coordinate inside the grid has its place inside the row-major sequence.
pub proof fn lemma_cell_in_grid(w: nat, h: nat, x: int, y: int)
    requires
        0 <= x < w,
        0 <= y < h,
    ensures
        0 <= cell(w, x, y) < w * h,
{
    assert(w * y >= 0) by (nonlinear_arith)
        requires
            w >= 0,
            y >= 0,
    ;
    assert(w * y + w <= w * h) by (nonlinear_arith)
        requires
            y + 1 <= h,
            w >= 0,
    ;
}

/// Deciding an open cell, or marking it stuck, leaves one open cell fewer.
pub proof fn lemma_open_count_update(slots: Seq<Slot>, i: int, s: Slot)
    requires
        0 <= i < slots.len(),
        slots[i] is Open,
        !(s is Open),
    ensures
        open_count(slots.update(i, s)) + 1 == open_count(slots),
    decreases slots.len(),
{
    let after = slots.update(i, s);
    if i == slots.len() - 1 {
        assert(after.drop_last() =~= slots.drop_last());
    } else {
        assert(after.drop_last() =~= slots.drop_last().update(i, s));
        lemma_open_count_update(slots.drop_last(), i, s);
    }
}

/// Scheduling a coordinate adds one to the stale count exactly if its cell is
/// no longer open.
pub proof fn lemma_stale_count_push(
    frontier: Seq<(usize, usize)>,
    slots: Seq<Slot>,
    w: nat,
    c: (usize, usize),
)
    ensures
        stale_count(frontier.push(c), slots, w) == stale_count(frontier, slots, w) + if slots[cell(
            w,
            c.0 as int,
            c.1 as int,
        )] is Open {
            0nat
        } else {
            1nat
        },
{
    assert(frontier.push(c).drop_last() =~= frontier);
}

/// What a visit schedules lies in the grid.
pub proof fn lemma_schedule_in_grid(
    frontier: Seq<(usize, usize)>,
    slots: Seq<Slot>,
    w: nat,
    h: nat,
    x: int,
    y: int,
    from_stuck: bool,
)
    requires
        0 <= x < w <= usize::MAX,
        0 <= y < h <= usize::MAX,
        forall|j: int|
            0 <= j < frontier.len() ==> (#[trigger] frontier[j]).0 < w && frontier[j].1 < h,
    ensures
        forall|j: int|
            0 <= j < schedule(frontier, slots, w, h, x, y, from_stuck).len() ==> (#[trigger] schedule(
                frontier,
                slots,
                w,
                h,
                x,
                y,
                from_stuck,
            )[j]).0 < w && schedule(frontier, slots, w, h, x, y, from_stuck)[j].1 < h,
{
}

/// A stuck cell schedules open cells only, so it adds nothing stale.
pub proof fn lemma_schedule_from_stuck(
    frontier: Seq<(usize, usize)>,
    slots: Seq<Slot>,
    w: nat,
    h: nat,
    x: int,
    y: int,
)
    requires
        0 <= x < w <= usize::MAX,
        0 <= y < h <= usize::MAX,
    ensures
        stale_count(schedule(frontier, slots, w, h, x, y, true), slots, w) == stale_count(
            frontier,
            slots,
            w,
        ),
{
    let f1 = push_if(
        frontier,
        y > 0 && wanted(slots, cell(w, x, y - 1), true),
        (x as usize, (y - 1) as usize),
    );
    let f2 = push_if(
        f1,
        x + 1 < w && wanted(slots, cell(w, x + 1, y), true),
        ((x + 1) as usize, y as usize),
    );
    let f3 = push_if(
        f2,
        y + 1 < h && wanted(slots, cell(w, x, y + 1), true),
        (x as usize, (y + 1) as usize),
    );
    lemma_stale_count_push(frontier, slots, w, (x as usize, (y - 1) as usize));
    lemma_stale_count_push(f1, slots, w, ((x + 1) as usize, y as usize));
    lemma_stale_count_push(f2, slots, w, (x as usize, (y + 1) as usize));
    lemma_stale_count_push(f3, slots, w, ((x - 1) as usize, y as usize));
}

/// The candidate set is exactly the fitting catalog positions, each once, in
/// rising order.
pub proof fn lemma_fitting_below<U: PartialEq>(cat: Seq<Edges<U>>, a: Around, n: nat)
    requires
        n <= usize::MAX,
    ensures
        fitting_below(cat, a, n).len() <= n,
        forall|j: int|
            0 <= j < fitting_below(cat, a, n).len() ==> (#[trigger] fitting_below(cat, a, n)[j]) < n
                && fits(cat, fitting_below(cat, a, n)[j] as int, a),
        forall|i: int, j: int|
            0 <= i < j < fitting_below(cat, a, n).len() ==> fitting_below(cat, a, n)[i]
                < fitting_below(cat, a, n)[j],
        forall|k: int|
            0 <= k < n && fits(cat, k, a) ==> fitting_below(cat, a, n).contains(k as usize),
    decreases n,
{
    if n > 0 {
        let before = fitting_below(cat, a, (n - 1) as nat);
        lemma_fitting_below(cat, a, (n - 1) as nat);
        let now = fitting_below(cat, a, n);
        assert forall|k: int| 0 <= k < n && fits(cat, k, a) implies now.contains(k as usize) by {
            if k == n - 1 {
                assert(now[now.len() - 1] == k as usize);
            } else {
                assert(before.contains(k as usize));
                let j = choose|j: int| 0 <= j < before.len() && before[j] == k as usize;
                assert(now[j] == k as usize);
            }
        }
    }
}

/// One visit ends in a sound state and brings the fill nearer to its end: it
/// leaves an open cell fewer, or as many open cells and a stale coordinate
/// fewer on the frontier.
pub proof fn lemma_step_progress<U: PartialEq>(
    cat: Seq<Edges<U>>,
    w: nat,
    h: nat,
    fallback: usize,
    p: Progress,
    word: u64,
)
    requires
        sound(p, w, h, cat.len()),
        w * h <= usize::MAX,
        cat.len() <= usize::MAX,
        fallback < cat.len(),
        p.frontier.len() > 0,
    ensures
        sound(step(cat, w, h, fallback, p, word), w, h, cat.len()),
        open_count(step(cat, w, h, fallback, p, word).slots) < open_count(p.slots) || (open_count(
            step(cat, w, h, fallback, p, word).slots,
        ) == open_count(p.slots) && stale_count(
            step(cat, w, h, fallback, p, word).frontier,
            step(cat, w, h, fallback, p, word).slots,
            w,
        ) < stale_count(p.frontier, p.slots, w)),
        step(cat, w, h, fallback, p, word).slots.len() == p.slots.len(),
{
    let (x, y) = p.frontier.last();
    let rest = p.frontier.drop_last();
    let i = cell(w, x as int, y as int);
    let q = step(cat, w, h, fallback, p, word);
    lemma_cell_in_grid(w, h, x as int, y as int);
    assert(w <= w * h && h <= w * h) by (nonlinear_arith)
        requires
            w > 0,
            h > 0,
    ;
    assert forall|j: int| 0 <= j < rest.len() implies (#[trigger] rest[j]).0 < w && rest[j].1
        < h by {
        assert(rest[j] == p.frontier[j]);
    }
    match p.slots[i] {
        Slot::Placed(_) => {},
        Slot::Stuck => {
            lemma_schedule_in_grid(rest, p.slots, w, h, x as int, y as int, true);
            lemma_schedule_from_stuck(rest, p.slots, w, h, x as int, y as int);
        },
        Slot::Open => {
            lemma_schedule_in_grid(rest, p.slots, w, h, x as int, y as int, false);
            let options = candidates(cat, around(p.slots, w, h, x as int, y as int));
            lemma_fitting_below(cat, around(p.slots, w, h, x as int, y as int), cat.len());
            if options.len() > 0 {
                let k = options[pick_spec(word, options.len())];
                assert(k < cat.len());
                lemma_open_count_update(p.slots, i, Slot::Placed(k));
            } else if p.forced is None {
                lemma_open_count_update(p.slots, i, Slot::Placed(fallback));
            } else {
                lemma_open_count_update(p.slots, i, Slot::Stuck);
            }
        },
    }
}

/// The fill from state `p` to its end: visits, each fed the next word of the
/// stream of `seed`, until the frontier is empty.
pub open spec fn run<U: PartialEq>(
    cat: Seq<Edges<U>>,
    w: nat,
    h: nat,
    fallback: usize,
    seed: u64,
    p: Progress,
) -> Progress
    decreases open_count(p.slots), stale_count(p.frontier, p.slots, w),
    when sound(p, w, h, cat.len()) && w * h <= usize::MAX && cat.len() <= usize::MAX && fallback
        < cat.len()
    via run_ends::<U>
{
    if p.frontier.len() == 0 {
        p
    } else {
        run(cat, w, h, fallback, seed, step(cat, w, h, fallback, p, seeded_word(seed, p.drawn)))
    }
}

#[via_fn]
proof fn run_ends<U: PartialEq>(
    cat: Seq<Edges<U>>,
    w: nat,
    h: nat,
    fallback: usize,
    seed: u64,
    p: Progress,
) {
    if p.frontier.len() > 0 {
        let word = seeded_word(seed, p.drawn);
        lemma_step_progress(cat, w, h, fallback, p, word);
    }
}

/// A grid of `w` by `h` cells, all of them open.
pub open spec fn all_open(w: nat, h: nat) -> Seq<Slot> {
    Seq::new(w * h, |i: int| Slot::Open)
}

/// The state from which a fill sets out: every cell open, and on the frontier
/// the one coordinate that the first two words of the stream choose. The third
/// word is kept for the fallback.
pub open spec fn start(w: nat, h: nat, seed: u64) -> Progress {
    Progress {
        slots: all_open(w, h),
        frontier: seq![
            (
                pick_spec(seeded_word(seed, 0), w) as usize,
                pick_spec(seeded_word(seed, 1), h) as usize,
            ),
        ],
        forced: None,
        drawn: 3,
    }
}

/// The catalog position that the fallback places: the choice of the third
/// word of the stream among the `n` entries.
pub open spec fn fallback_of(n: nat, seed: u64) -> usize {
    pick_spec(seeded_word(seed, 2), n) as usize
}

/// The state in which the fill of a `w` by `h` grid from `seed` ends. With an
/// empty catalog nothing is visited and every cell stays open.
pub open spec fn outcome<U: PartialEq>(cat: Seq<Edges<U>>, w: nat, h: nat, seed: u64) -> Progress {
    if cat.len() == 0 {
        Progress { slots: all_open(w, h), frontier: Seq::empty(), forced: None, drawn: 0 }
    } else {
        run(cat, w, h, fallback_of(cat.len(), seed), seed, start(w, h, seed))
    }
}

/// What the cells hold: for each one the catalog position placed there, or
/// nothing where the cell is open or stuck.
pub open spec fn holdings(slots: Seq<Slot>) -> Seq<Option<usize>> {
    Seq::new(slots.len(), |i: int| placed(slots, i))
}

/// The grid that the fill of a `w` by `h` grid from `seed` produces, row by
/// row: for each cell the catalog position placed there, if any.
pub open spec fn layout<U: PartialEq>(cat: Seq<Edges<U>>, w: nat, h: nat, seed: u64) -> Seq<
    Option<usize>,
> {
    holdings(outcome(cat, w, h, seed).slots)
}

/// The decided neighbours of a cell of a sound grid lie in the catalog.
pub proof fn lemma_neighbours_in_catalog(slots: Seq<Slot>, w: nat, h: nat, x: int, y: int, n: nat)
    requires
        0 <= x < w,
        0 <= y < h,
        slots.len() == w * h,
        forall|i: int|
            0 <= i < slots.len() ==> (#[trigger] slots[i] matches Slot::Placed(k) ==> k < n),
    ensures
        around(slots, w, h, x, y).up matches Some(k) ==> k < n,
        around(slots, w, h, x, y).right matches Some(k) ==> k < n,
        around(slots, w, h, x, y).down matches Some(k) ==> k < n,
        around(slots, w, h, x, y).left matches Some(k) ==> k < n,
{
    if y > 0 {
        lemma_cell_in_grid(w, h, x, y - 1);
    }
    if x + 1 < w {
        lemma_cell_in_grid(w, h, x + 1, y);
    }
    if y + 1 < h {
        lemma_cell_in_grid(w, h, x, y + 1);
    }
    if x > 0 {
        lemma_cell_in_grid(w, h, x - 1, y);
    }
}

/// Every state of a run is sound, the last one too, and there the frontier is
/// empty.
pub proof fn lemma_run_sound<U: PartialEq>(
    cat: Seq<Edges<U>>,
    w: nat,
    h: nat,
    fallback: usize,
    seed: u64,
    p: Progress,
)
    requires
        sound(p, w, h, cat.len()),
        w * h <= usize::MAX,
        cat.len() <= usize::MAX,
        fallback < cat.len(),
    ensures
        sound(run(cat, w, h, fallback, seed, p), w, h, cat.len()),
        run(cat, w, h, fallback, seed, p).frontier.len() == 0,
    decreases open_count(p.slots), stale_count(p.frontier, p.slots, w),
{
    if p.frontier.len() > 0 {
        let word = seeded_word(seed, p.drawn);
        lemma_step_progress(cat, w, h, fallback, p, word);
        lemma_run_sound(cat, w, h, fallback, seed, step(cat, w, h, fallback, p, word));
    }
}

/// The state from which a fill sets out is sound.
pub proof fn lemma_start_sound(w: nat, h: nat, n: nat, seed: u64)
    requires
        0 < w <= usize::MAX,
        0 < h <= usize::MAX,
    ensures
        sound(start(w, h, seed), w, h, n),
{
}

/// The fill ends in a sound state: as many cells as the grid has, and every
/// placed position inside the catalog.
pub proof fn lemma_outcome_sound<U: PartialEq>(cat: Seq<Edges<U>>, w: nat, h: nat, seed: u64)
    requires
        w > 0,
        h > 0,
        w * h <= usize::MAX,
        cat.len() <= usize::MAX,
    ensures
        sound(outcome(cat, w, h, seed), w, h, cat.len()),
        outcome(cat, w, h, seed).frontier.len() == 0,
{
    assert(w <= w * h && h <= w * h) by (nonlinear_arith)
        requires
            w > 0,
            h > 0,
    ;
    if cat.len() > 0 {
        lemma_start_sound(w, h, cat.len(), seed);
        lemma_run_sound(cat, w, h, fallback_of(cat.len(), seed), seed, start(w, h, seed));
    }
}

} // verus!
