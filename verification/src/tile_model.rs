//! The tile model: a catalog of tiles, and the fill of a grid from a seed.

use crate::board::{holding, place_of, schedule_neighbours, survey};
use crate::fill::{
    all_open, candidates, fits, fitting_below, holdings, layout, lemma_neighbours_in_catalog,
    lemma_outcome_sound, lemma_step_progress, open_count, outcome, placed, run, sound,
    stale_count, start, step, Around, Progress, Slot,
};
use crate::rng::{next_word, pick, seeded_rng, seeded_word, upcoming};
use crate::tile::{
    clones_exactly, lemma_exact_tile, overlaps, same_tile, tile_cloned, Edges,
};
pub use crate::tile::Tile;
use vstd::prelude::*;
use vstd::std_specs::cmp::PartialEqSpec;

verus! {

/// The edges of each tile of a catalog, in catalog order.
pub open spec fn catalog_of<T: Clone, U: Clone + PartialEq>(tiles: Seq<Tile<T, U>>) -> Seq<
    Edges<U>,
> {
    Seq::new(tiles.len(), |k: int| tiles[k].edges())
}

/// `grid` shows `plan`: where the plan places a catalog position, the grid
/// holds a clone of that tile, and where it places nothing, the grid is empty.
pub open spec fn shows<T: Clone, U: Clone + PartialEq>(
    tiles: Seq<Tile<T, U>>,
    plan: Seq<Option<usize>>,
    grid: Seq<Option<Tile<T, U>>>,
) -> bool {
    &&& grid.len() == plan.len()
    &&& forall|i: int|
        0 <= i < plan.len() ==> match #[trigger] plan[i] {
            Some(k) => grid[i] is Some && tile_cloned(tiles[k as int], grid[i]->0),
            None => grid[i] is None,
        }
}

/// `grid` shows `plan` exactly: where the plan places a catalog position, the
/// grid holds a tile with the identity and the edges of that tile.
pub open spec fn shows_exactly<T: Clone, U: Clone + PartialEq>(
    tiles: Seq<Tile<T, U>>,
    plan: Seq<Option<usize>>,
    grid: Seq<Option<Tile<T, U>>>,
) -> bool {
    &&& grid.len() == plan.len()
    &&& forall|i: int|
        0 <= i < plan.len() ==> match #[trigger] plan[i] {
            Some(k) => grid[i] is Some && same_tile(tiles[k as int], grid[i]->0),
            None => grid[i] is None,
        }
}

/// Where cloning an identity and cloning a label give equal values, a grid
/// that shows a plan shows it exactly.
pub proof fn lemma_shows_exactly<T: Clone, U: Clone + PartialEq>(
    tiles: Seq<Tile<T, U>>,
    plan: Seq<Option<usize>>,
    grid: Seq<Option<Tile<T, U>>>,
)
    requires
        clones_exactly::<T>(),
        clones_exactly::<U>(),
        shows(tiles, plan, grid),
    ensures
        shows_exactly(tiles, plan, grid),
{
    assert forall|i: int| 0 <= i < plan.len() implies match #[trigger] plan[i] {
        Some(k) => grid[i] is Some && same_tile(tiles[k as int], grid[i]->0),
        None => grid[i] is None,
    } by {
        if let Some(k) = plan[i] {
            lemma_exact_tile(tiles[k as int], grid[i]->0);
        }
    }
}

/// A catalog of tiles in a fixed order. The order matters: a word of the
/// stream chooses a tile by its position.
pub struct TileModel<T, U> where T: Clone, U: Clone + PartialEq {
    tiles: Vec<Tile<T, U>>,
}

impl<T: Clone, U: Clone + PartialEq> TileModel<T, U> {
    /// The tiles of the catalog, in the order in which they were given.
    pub closed spec fn tiles(&self) -> Seq<Tile<T, U>> {
        self.tiles@
    }

    /// The edges of the catalog's tiles: all that a fill reads of them.
    pub open spec fn catalog(&self) -> Seq<Edges<U>> {
        catalog_of(self.tiles())
    }

    /// The model of this catalog.
    pub fn new(tiles: Vec<Tile<T, U>>) -> (r: Self)
        ensures
            r.tiles() == tiles@,
    {
        Self { tiles }
    }

    /// Whether the tile at catalog position `k` may stand among the
    /// neighbours `a`.
    pub fn fits(&self, k: usize, a: &Around) -> (r: bool)
        requires
            U::obeys_eq_spec(),
            k < self.tiles().len(),
            a.up matches Some(n) ==> n < self.tiles().len(),
            a.right matches Some(n) ==> n < self.tiles().len(),
            a.down matches Some(n) ==> n < self.tiles().len(),
            a.left matches Some(n) ==> n < self.tiles().len(),
        ensures
            r == fits(self.catalog(), k as int, *a),
    {
        let tile = &self.tiles[k];
        let fits_up = match a.up {
            Some(n) => overlaps(tile.up(), self.tiles[n].down()),
            None => true,
        };
        let fits_right = match a.right {
            Some(n) => overlaps(tile.right(), self.tiles[n].left()),
            None => true,
        };
        let fits_down = match a.down {
            Some(n) => overlaps(tile.down(), self.tiles[n].up()),
            None => true,
        };
        let fits_left = match a.left {
            Some(n) => overlaps(tile.left(), self.tiles[n].right()),
            None => true,
        };
        fits_up && fits_right && fits_down && fits_left
    }

    /// The candidate set of a cell with the neighbours `a`: the catalog
    /// positions that fit, in catalog order.
    pub fn candidates(&self, a: &Around) -> (r: Vec<usize>)
        requires
            U::obeys_eq_spec(),
            a.up matches Some(n) ==> n < self.tiles().len(),
            a.right matches Some(n) ==> n < self.tiles().len(),
            a.down matches Some(n) ==> n < self.tiles().len(),
            a.left matches Some(n) ==> n < self.tiles().len(),
        ensures
            r@ == candidates(self.catalog(), *a),
    {
        let mut options: Vec<usize> = Vec::new();
        let mut k: usize = 0;
        while k < self.tiles.len()
            invariant
                U::obeys_eq_spec(),
                k <= self.tiles().len(),
                a.up matches Some(n) ==> n < self.tiles().len(),
                a.right matches Some(n) ==> n < self.tiles().len(),
                a.down matches Some(n) ==> n < self.tiles().len(),
                a.left matches Some(n) ==> n < self.tiles().len(),
                options@ == fitting_below(self.catalog(), *a, k as nat),
            decreases self.tiles().len() - k,
        {
            if self.fits(k, a) {
                options.push(k);
            }
            k += 1;
        }
        options
    }

    /// Runs the fill of a `width` by `height` grid from `seed` and returns the
    /// cells as the last visit left them.
    pub fn fill(&self, width: usize, height: usize, seed: u64) -> (slots: Vec<Slot>)
        requires
            width > 0,
            height > 0,
            width * height <= usize::MAX,
            U::obeys_eq_spec(),
        ensures
            slots@ == outcome(self.catalog(), width as nat, height as nat, seed).slots,
            slots@.len() == width * height,
    {
        let ghost cat = self.catalog();
        let ghost w = width as nat;
        let ghost h = height as nat;
        let cells = width * height;
        let mut slots: Vec<Slot> = Vec::with_capacity(cells);
        while slots.len() < cells
            invariant
                slots.len() <= cells,
                forall|i: int| 0 <= i < slots.len() ==> slots@[i] is Open,
            decreases cells - slots.len(),
        {
            slots.push(Slot::Open);
        }
        assert(slots@ =~= all_open(w, h));
        let n = self.tiles.len();
        if n == 0 {
            return slots;
        }
        let mut rng = seeded_rng(seed);
        let start_x = pick(next_word(&mut rng), width);
        let start_y = pick(next_word(&mut rng), height);
        let fallback = pick(next_word(&mut rng), n);
        let mut frontier: Vec<(usize, usize)> = Vec::with_capacity(cells);
        frontier.push((start_x, start_y));
        let mut first_tile = true;
        let ghost mut forced: Option<int> = None;
        let ghost mut drawn: nat = 3;
        assert(frontier@ =~= start(w, h, seed).frontier);
        while frontier.len() > 0
            invariant
                U::obeys_eq_spec(),
                cat == self.catalog(),
                w == width,
                h == height,
                w * h <= usize::MAX,
                n == self.tiles().len(),
                fallback < n,
                first_tile == (forced is None),
                sound(
                    Progress { slots: slots@, frontier: frontier@, forced, drawn },
                    w,
                    h,
                    n as nat,
                ),
                forall|k: nat| upcoming(rng, k) == seeded_word(seed, drawn + k),
                run(
                    cat,
                    w,
                    h,
                    fallback,
                    seed,
                    Progress { slots: slots@, frontier: frontier@, forced, drawn },
                ) == outcome(cat, w, h, seed),
            decreases open_count(slots@), stale_count(frontier@, slots@, w),
        {
            let ghost before = Progress { slots: slots@, frontier: frontier@, forced, drawn };
            let ghost word = seeded_word(seed, drawn);
            proof {
                lemma_step_progress(cat, w, h, fallback, before, word);
            }
            let (x, y) = frontier.pop().unwrap();
            let i = place_of(width, height, x, y);
            match slots[i] {
                Slot::Placed(_) => {},
                Slot::Stuck => {
                    schedule_neighbours(&mut frontier, &slots, width, height, x, y, true);
                },
                Slot::Open => {
                    schedule_neighbours(&mut frontier, &slots, width, height, x, y, false);
                    let a = survey(&slots, width, height, x, y);
                    proof {
                        lemma_neighbours_in_catalog(slots@, w, h, x as int, y as int, n as nat);
                    }
                    let options = self.candidates(&a);
                    if options.len() > 0 {
                        let drawn_word = next_word(&mut rng);
                        assert(drawn_word == word);
                        let k = options[pick(drawn_word, options.len())];
                        slots.set(i, Slot::Placed(k));
                        proof {
                            drawn = drawn + 1;
                        }
                    } else if first_tile {
                        first_tile = false;
                        slots.set(i, Slot::Placed(fallback));
                        proof {
                            forced = Some(i as int);
                        }
                    } else {
                        slots.set(i, Slot::Stuck);
                    }
                },
            }
            assert(Progress { slots: slots@, frontier: frontier@, forced, drawn } == step(
                cat,
                w,
                h,
                fallback,
                before,
                word,
            ));
        }
        slots
    }

    /// Fills a `width` by `height` grid from `seed` and returns, row by row,
    /// the catalog position placed in each cell, or nothing for a cell that
    /// the fill left empty.
    pub fn generate_indices(&self, width: usize, height: usize, seed: u64) -> (grid: Vec<
        Option<usize>,
    >)
        requires
            width > 0,
            height > 0,
            width * height <= usize::MAX,
            U::obeys_eq_spec(),
        ensures
            grid@ == layout(self.catalog(), width as nat, height as nat, seed),
            grid@.len() == width * height,
    {
        let slots = self.fill(width, height, seed);
        let mut grid: Vec<Option<usize>> = Vec::with_capacity(slots.len());
        let mut i: usize = 0;
        while i < slots.len()
            invariant
                i <= slots.len(),
                grid.len() == i,
                forall|j: int| 0 <= j < i ==> grid@[j] == placed(slots@, j),
            decreases slots.len() - i,
        {
            grid.push(holding(slots[i]));
            i += 1;
        }
        assert(grid@ =~= holdings(slots@));
        grid
    }

    /// Fills a `width` by `height` grid from `seed`. The grid comes row by
    /// row; a cell holds a clone of the tile placed there, or nothing where
    /// the fill found no tile to place.
    pub fn generate(&self, width: usize, height: usize, seed: u64) -> (grid: Vec<
        Option<Tile<T, U>>,
    >)
        requires
            width > 0,
            height > 0,
            width * height <= usize::MAX,
            U::obeys_eq_spec(),
        ensures
            shows(
                self.tiles(),
                layout(self.catalog(), width as nat, height as nat, seed),
                grid@,
            ),
            clones_exactly::<T>() && clones_exactly::<U>() ==> shows_exactly(
                self.tiles(),
                layout(self.catalog(), width as nat, height as nat, seed),
                grid@,
            ),
            grid@.len() == width * height,
    {
        let slots = self.fill(width, height, seed);
        proof {
            assert(self.catalog().len() == self.tiles.len());
            lemma_outcome_sound(self.catalog(), width as nat, height as nat, seed);
        }
        let mut grid: Vec<Option<Tile<T, U>>> = Vec::with_capacity(slots.len());
        let mut i: usize = 0;
        while i < slots.len()
            invariant
                i <= slots.len(),
                grid.len() == i,
                forall|c: int|
                    0 <= c < slots.len() ==> (#[trigger] slots@[c] matches Slot::Placed(k) ==> k
                        < self.tiles().len()),
                forall|j: int|
                    0 <= j < i ==> match placed(slots@, j) {
                        Some(k) => (#[trigger] grid@[j]) is Some && tile_cloned(
                            self.tiles()[k as int],
                            grid@[j]->0,
                        ),
                        None => grid@[j] is None,
                    },
            decreases slots.len() - i,
        {
            let cell = match slots[i] {
                Slot::Placed(k) => Some(self.tiles[k].clone()),
                _ => None,
            };
            grid.push(cell);
            i += 1;
        }
        proof {
            if clones_exactly::<T>() && clones_exactly::<U>() {
                lemma_shows_exactly(
                    self.tiles(),
                    layout(self.catalog(), width as nat, height as nat, seed),
                    grid@,
                );
            }
        }
        grid
    }
}

} // verus!
