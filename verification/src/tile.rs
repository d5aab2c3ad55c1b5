//! A catalog entry: an identity and the labels it shows on each of its four sides.

use vstd::prelude::*;
use vstd::std_specs::cmp::PartialEqSpec;

verus! {

/// The labels of the four sides of a tile, as mathematical sequences.
pub struct Edges<U> {
    pub up: Seq<U>,
    pub right: Seq<U>,
    pub down: Seq<U>,
    pub left: Seq<U>,
}

impl<U> Edges<U> {
    /// The edges after a quarter turn clockwise: what pointed left now points up.
    pub open spec fn quarter_turn(self) -> Edges<U> {
        Edges { up: self.left, right: self.up, down: self.right, left: self.down }
    }

    /// The edges after a half turn.
    pub open spec fn half_turn(self) -> Edges<U> {
        Edges { up: self.down, right: self.left, down: self.up, left: self.right }
    }

    /// The edges after three quarter turns clockwise.
    pub open spec fn three_quarter_turn(self) -> Edges<U> {
        Edges { up: self.right, right: self.down, down: self.left, left: self.up }
    }
}

/// `b` holds, position by position, a clone of what `a` holds.
pub open spec fn labels_cloned<U: Clone>(a: Seq<U>, b: Seq<U>) -> bool {
    &&& a.len() == b.len()
    &&& forall|i: int| 0 <= i < a.len() ==> cloned::<U>(#[trigger] a[i], b[i])
}

/// Cloning a value of this type gives an equal value.
pub open spec fn clones_exactly<U: Clone>() -> bool {
    forall|a: U, b: U| #[trigger] cloned::<U>(a, b) ==> a == b
}

/// Each side of `b` is a clone of the same side of `a`.
pub open spec fn edges_cloned<U: Clone>(a: Edges<U>, b: Edges<U>) -> bool {
    &&& labels_cloned(a.up, b.up)
    &&& labels_cloned(a.right, b.right)
    &&& labels_cloned(a.down, b.down)
    &&& labels_cloned(a.left, b.left)
}

/// Where cloning a label gives an equal label, a clone of a label list is the
/// list itself.
pub proof fn lemma_exact_labels<U: Clone>(a: Seq<U>, b: Seq<U>)
    requires
        clones_exactly::<U>(),
        labels_cloned(a, b),
    ensures
        a == b,
{
    assert(a =~= b);
}

/// Where cloning a label gives an equal label, cloned edges are equal edges.
pub proof fn lemma_exact_edges<U: Clone>(a: Edges<U>, b: Edges<U>)
    requires
        clones_exactly::<U>(),
        edges_cloned(a, b),
    ensures
        a == b,
{
    lemma_exact_labels(a.up, b.up);
    lemma_exact_labels(a.right, b.right);
    lemma_exact_labels(a.down, b.down);
    lemma_exact_labels(a.left, b.left);
}

/// Two label lists touch: some label of `theirs` equals some label of `ours`
/// (the comparison is made with the label of `theirs` on the left).
pub open spec fn shares_label<U: PartialEq>(ours: Seq<U>, theirs: Seq<U>) -> bool {
    exists|i: int, j: int|
        0 <= i < ours.len() && 0 <= j < theirs.len() && #[trigger] theirs[j].eq_spec(&ours[i])
}

/// One entry of a tile catalog: an identity, by which its users know it, and
/// the labels that it shows on each side. Two tiles may stand side by side
/// where the sides that they turn to each other share a label. A side without
/// labels touches nothing; a label given twice counts once.
pub struct Tile<T, U> where T: Clone, U: Clone + PartialEq {
    pub tile: T,
    up: Vec<U>,
    right: Vec<U>,
    down: Vec<U>,
    left: Vec<U>,
}

impl<T: Clone, U: Clone + PartialEq> Tile<T, U> {
    /// The payload that names this tile to its users; the fill never reads it.
    pub closed spec fn identity(&self) -> T {
        self.tile
    }

    /// The four label lists of this tile.
    pub closed spec fn edges(&self) -> Edges<U> {
        Edges { up: self.up@, right: self.right@, down: self.down@, left: self.left@ }
    }

    /// A tile with this identity and these labels. Any lists will do.
    pub fn new(tile: T, up: Vec<U>, right: Vec<U>, down: Vec<U>, left: Vec<U>) -> (r: Self)
        ensures
            r.identity() == tile,
            r.edges() == (Edges { up: up@, right: right@, down: down@, left: left@ }),
    {
        Self { tile, up, right, down, left }
    }

    /// The labels on the upper side.
    pub fn up(&self) -> (r: &Vec<U>)
        ensures
            r@ == self.edges().up,
    {
        &self.up
    }

    /// The labels on the right side.
    pub fn right(&self) -> (r: &Vec<U>)
        ensures
            r@ == self.edges().right,
    {
        &self.right
    }

    /// The labels on the lower side.
    pub fn down(&self) -> (r: &Vec<U>)
        ensures
            r@ == self.edges().down,
    {
        &self.down
    }

    /// The labels on the left side.
    pub fn left(&self) -> (r: &Vec<U>)
        ensures
            r@ == self.edges().left,
    {
        &self.left
    }

    /// This tile turned a quarter turn clockwise, under a new identity.
    pub fn rotate_90(&self, tile: T) -> (r: Self)
        ensures
            r.identity() == tile,
            edges_cloned(self.edges().quarter_turn(), r.edges()),
            clones_exactly::<U>() ==> r.edges() == self.edges().quarter_turn(),
    {
        let r = Self {
            tile: tile,
            up: self.left.clone(),
            right: self.up.clone(),
            down: self.right.clone(),
            left: self.down.clone(),
        };
        proof {
            if clones_exactly::<U>() {
                lemma_exact_edges(self.edges().quarter_turn(), r.edges());
            }
        }
        r
    }

    /// This tile turned a half turn, under a new identity.
    pub fn rotate_180(&self, tile: T) -> (r: Self)
        ensures
            r.identity() == tile,
            edges_cloned(self.edges().half_turn(), r.edges()),
            clones_exactly::<U>() ==> r.edges() == self.edges().half_turn(),
    {
        let r = Self {
            tile: tile,
            up: self.down.clone(),
            right: self.left.clone(),
            down: self.up.clone(),
            left: self.right.clone(),
        };
        proof {
            if clones_exactly::<U>() {
                lemma_exact_edges(self.edges().half_turn(), r.edges());
            }
        }
        r
    }

    /// This tile turned three quarter turns clockwise, under a new identity.
    pub fn rotate_270(&self, tile: T) -> (r: Self)
        ensures
            r.identity() == tile,
            edges_cloned(self.edges().three_quarter_turn(), r.edges()),
            clones_exactly::<U>() ==> r.edges() == self.edges().three_quarter_turn(),
    {
        let r = Self {
            tile: tile,
            up: self.right.clone(),
            right: self.down.clone(),
            down: self.left.clone(),
            left: self.up.clone(),
        };
        proof {
            if clones_exactly::<U>() {
                lemma_exact_edges(self.edges().three_quarter_turn(), r.edges());
            }
        }
        r
    }
}

/// `b` is a clone of `a`: its identity is a clone of that of `a`, and so is
/// every label on every side.
pub open spec fn tile_cloned<T: Clone, U: Clone + PartialEq>(a: Tile<T, U>, b: Tile<T, U>) -> bool {
    &&& cloned::<T>(a.identity(), b.identity())
    &&& edges_cloned(a.edges(), b.edges())
}

/// `b` has the identity and the edges of `a`.
pub open spec fn same_tile<T: Clone, U: Clone + PartialEq>(a: Tile<T, U>, b: Tile<T, U>) -> bool {
    &&& a.identity() == b.identity()
    &&& a.edges() == b.edges()
}

/// Where cloning an identity and cloning a label give equal values, a clone
/// of a tile has the identity and the edges of the tile.
pub proof fn lemma_exact_tile<T: Clone, U: Clone + PartialEq>(a: Tile<T, U>, b: Tile<T, U>)
    requires
        clones_exactly::<T>(),
        clones_exactly::<U>(),
        tile_cloned(a, b),
    ensures
        same_tile(a, b),
{
    lemma_exact_edges(a.edges(), b.edges());
}

impl<T: Clone, U: Clone + PartialEq> Clone for Tile<T, U> {
    fn clone(&self) -> (r: Self)
        ensures
            tile_cloned(*self, r),
            clones_exactly::<T>() && clones_exactly::<U>() ==> same_tile(*self, r),
    {
        let r = Self {
            tile: self.tile.clone(),
            up: self.up.clone(),
            right: self.right.clone(),
            down: self.down.clone(),
            left: self.left.clone(),
        };
        proof {
            if clones_exactly::<T>() && clones_exactly::<U>() {
                lemma_exact_tile(*self, r);
            }
        }
        r
    }
}

/// Whether `label` equals some label of `theirs` (with theirs on the left of
/// the comparison).
pub fn has_label<U: PartialEq>(theirs: &Vec<U>, label: &U) -> (r: bool)
    requires
        U::obeys_eq_spec(),
    ensures
        r == exists|j: int| 0 <= j < theirs@.len() && #[trigger] theirs@[j].eq_spec(label),
{
    let mut j: usize = 0;
    while j < theirs.len()
        invariant
            U::obeys_eq_spec(),
            j <= theirs.len(),
            forall|q: int| 0 <= q < j ==> !(#[trigger] theirs@[q].eq_spec(label)),
        decreases theirs.len() - j,
    {
        if theirs[j] == *label {
            return true;
        }
        j += 1;
    }
    false
}

/// Whether two label lists touch: whether they share a label.
pub fn overlaps<U: PartialEq>(ours: &Vec<U>, theirs: &Vec<U>) -> (r: bool)
    requires
        U::obeys_eq_spec(),
    ensures
        r == shares_label(ours@, theirs@),
{
    let mut i: usize = 0;
    while i < ours.len()
        invariant
            U::obeys_eq_spec(),
            i <= ours.len(),
            forall|p: int, q: int|
                0 <= p < i && 0 <= q < theirs@.len() ==> !(#[trigger] theirs@[q].eq_spec(
                    &ours@[p],
                )),
        decreases ours.len() - i,
    {
        if has_label(theirs, &ours[i]) {
            return true;
        }
        i += 1;
    }
    false
}

} // verus!
