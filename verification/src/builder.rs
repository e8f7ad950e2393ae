//! Population construction: an immutable-value builder that accumulates a
//! draft coordinate set, translates it by vector addition, and commits
//! drafts into an accumulated set, producing the initial `CellSet` that
//! the engine consumes.

use crate::life::{
    lemma_push_fresh_distinct, lemma_push_preserves_has, lemma_view_membership, seq_find_coord,
    seq_has_coord, CellSet, Coord,
};
use rand::Rng;
use vstd::prelude::*;

verus! {

/// The draft translated by `v`: a coordinate is in the image exactly when
/// its preimage under the translation was in `s`.
pub open spec fn translate_of(s: Set<(int, int)>, v: (int, int)) -> Set<(int, int)> {
    Set::new(|k: (int, int)| s.contains((k.0 - v.0, k.1 - v.1)))
}

/// The five cells of a glider, around the origin.
pub open spec fn glider_cells() -> Set<(int, int)> {
    set![(-1, 0), (0, 0), (1, 0), (1, -1), (0, -2)]
}

/// The three cells of a blinker: a horizontal bar through the origin.
pub open spec fn blinker_cells() -> Set<(int, int)> {
    set![(-1, 0), (0, 0), (1, 0)]
}

/// A nine-cell seed that develops into the pentadecathlon oscillator.
pub open spec fn pentadecathlon_cells() -> Set<(int, int)> {
    set![(0, 0), (0, -1), (1, -1), (1, -2), (3, 0), (6, 0), (6, -1), (6, -2), (7, -1)]
}

/// An immutable-value builder for initial populations: `draft` is the
/// shape being worked on, `committed` the accumulated population.
pub struct CellSetBuilder {
    pub draft: CellSet,
    pub committed: CellSet,
}

impl CellSetBuilder {
    /// Both halves of the builder are duplicate-free snapshots.
    pub open spec fn wf(&self) -> bool {
        self.draft.wf() && self.committed.wf()
    }

    pub fn new() -> (r: Self)
        ensures
            r.wf(),
            r.draft@ == Set::<(int, int)>::empty(),
            r.committed@ == Set::<(int, int)>::empty(),
    {
        CellSetBuilder { draft: CellSet::new(), committed: CellSet::new() }
    }

    /// Merges the draft into the committed population (duplicates collapse
    /// under set semantics) and starts a fresh, empty draft.
    pub fn commit(self) -> (r: Self)
        requires
            self.wf(),
        ensures
            r.wf(),
            r.committed@ == self.committed@.union(self.draft@),
            r.draft@ == Set::<(int, int)>::empty(),
    {
        let merged = merge_cells(self.committed.cells, &self.draft.cells);
        let committed = CellSet { cells: merged };
        proof {
            assert forall|k: (int, int)| committed@.contains(k) == self.committed@.union(
                self.draft@,
            ).contains(k) by {
                lemma_view_membership(committed.cells@, k);
                lemma_view_membership(self.committed.cells@, k);
                lemma_view_membership(self.draft.cells@, k);
            }
            assert(committed@ =~= self.committed@.union(self.draft@));
        }
        CellSetBuilder { draft: CellSet::new(), committed }
    }

    /// Commits the final draft and hands the accumulated population over.
    pub fn build(self) -> (r: CellSet)
        requires
            self.wf(),
        ensures
            r.wf(),
            r@ == self.committed@.union(self.draft@),
    {
        let b = self.commit();
        b.committed
    }

    /// Translates the draft by `trans_vec`, leaving the committed
    /// population in place.
    pub fn translate(self, trans_vec: Coord) -> (r: Self)
        requires
            self.wf(),
            forall|c: (int, int)|
                self.draft@.contains(c) ==> (i64::MIN <= c.0 + trans_vec@.0 <= i64::MAX
                    && i64::MIN <= c.1 + trans_vec@.1 <= i64::MAX),
        ensures
            r.wf(),
            r.committed@ == self.committed@,
            r.draft@ == translate_of(self.draft@, trans_vec@),
    {
        let n = self.draft.cells.len();
        let mut out: Vec<Coord> = Vec::new();
        let mut i: usize = 0;
        while i < n
            invariant
                self.draft.wf(),
                forall|c: (int, int)|
                    self.draft@.contains(c) ==> (i64::MIN <= c.0 + trans_vec@.0 <= i64::MAX
                        && i64::MIN <= c.1 + trans_vec@.1 <= i64::MAX),
                n == self.draft.cells@.len(),
                0 <= i <= n,
                out@.len() == i,
                forall|p: int|
                    0 <= p < i ==> #[trigger] out@[p]@ == (
                        self.draft.cells@[p]@.0 + trans_vec@.0,
                        self.draft.cells@[p]@.1 + trans_vec@.1,
                    ),
            decreases n - i,
        {
            let c = self.draft.cells[i];
            proof {
                assert(self.draft.cells@.map_values(|k: Coord| k@)[i as int] == c@);
                assert(self.draft.cells@.map_values(|k: Coord| k@).contains(c@));
                assert(self.draft@.contains(c@));
            }
            out.push(Coord { x: c.x + trans_vec.x, y: c.y + trans_vec.y });
            i += 1;
        }
        let draft = CellSet { cells: out };
        proof {
            let v = trans_vec@;
            assert forall|k: (int, int)| draft@.contains(k) == translate_of(
                self.draft@,
                v,
            ).contains(k) by {
                lemma_view_membership(draft.cells@, k);
                lemma_view_membership(self.draft.cells@, (k.0 - v.0, k.1 - v.1));
                if seq_has_coord(draft.cells@, k) {
                    let p = choose|p: int| 0 <= p < draft.cells@.len() && draft.cells@[p]@ == k;
                    assert(self.draft.cells@[p]@ == (k.0 - v.0, k.1 - v.1));
                }
                if self.draft@.contains((k.0 - v.0, k.1 - v.1)) {
                    let p = choose|p: int|
                        0 <= p < self.draft.cells@.len() && self.draft.cells@[p]@ == (
                            k.0 - v.0,
                            k.1 - v.1,
                        );
                    assert(draft.cells@[p]@ == k);
                }
            }
            assert(draft@ =~= translate_of(self.draft@, v));
        }
        CellSetBuilder { draft, committed: self.committed }
    }

    /// Commits the current draft and starts a glider as the new draft.
    pub fn glider(self) -> (r: Self)
        requires
            self.wf(),
        ensures
            r.wf(),
            r.committed@ == self.committed@.union(self.draft@),
            r.draft@ == glider_cells(),
    {
        let b = self.commit();
        let mut cells: Vec<Coord> = Vec::new();
        cells.push(Coord { x: -1, y: 0 });
        cells.push(Coord { x: 0, y: 0 });
        cells.push(Coord { x: 1, y: 0 });
        cells.push(Coord { x: 1, y: -1 });
        cells.push(Coord { x: 0, y: -2 });
        let draft = CellSet { cells };
        proof {
            let mapped = draft.cells@.map_values(|c: Coord| c@);
            assert(mapped[0] == (-1int, 0int));
            assert(mapped[1] == (0int, 0int));
            assert(mapped[2] == (1int, 0int));
            assert(mapped[3] == (1int, -1int));
            assert(mapped[4] == (0int, -2int));
            assert(draft@ =~= glider_cells());
        }
        CellSetBuilder { draft, committed: b.committed }
    }

    /// Commits the current draft and starts a blinker as the new draft.
    pub fn blinker(self) -> (r: Self)
        requires
            self.wf(),
        ensures
            r.wf(),
            r.committed@ == self.committed@.union(self.draft@),
            r.draft@ == blinker_cells(),
    {
        let b = self.commit();
        let mut cells: Vec<Coord> = Vec::new();
        cells.push(Coord { x: -1, y: 0 });
        cells.push(Coord { x: 0, y: 0 });
        cells.push(Coord { x: 1, y: 0 });
        let draft = CellSet { cells };
        proof {
            let mapped = draft.cells@.map_values(|c: Coord| c@);
            assert(mapped[0] == (-1int, 0int));
            assert(mapped[1] == (0int, 0int));
            assert(mapped[2] == (1int, 0int));
            assert(draft@ =~= blinker_cells());
        }
        CellSetBuilder { draft, committed: b.committed }
    }

    /// Commits the current draft and starts a pentadecathlon seed as the
    /// new draft.
    pub fn pentadecathlon(self) -> (r: Self)
        requires
            self.wf(),
        ensures
            r.wf(),
            r.committed@ == self.committed@.union(self.draft@),
            r.draft@ == pentadecathlon_cells(),
    {
        let b = self.commit();
        let mut cells: Vec<Coord> = Vec::new();
        cells.push(Coord { x: 0, y: 0 });
        cells.push(Coord { x: 0, y: -1 });
        cells.push(Coord { x: 1, y: -1 });
        cells.push(Coord { x: 1, y: -2 });
        cells.push(Coord { x: 3, y: 0 });
        cells.push(Coord { x: 6, y: 0 });
        cells.push(Coord { x: 6, y: -1 });
        cells.push(Coord { x: 6, y: -2 });
        cells.push(Coord { x: 7, y: -1 });
        let draft = CellSet { cells };
        proof {
            let mapped = draft.cells@.map_values(|c: Coord| c@);
            assert(mapped[0] == (0int, 0int));
            assert(mapped[1] == (0int, -1int));
            assert(mapped[2] == (1int, -1int));
            assert(mapped[3] == (1int, -2int));
            assert(mapped[4] == (3int, 0int));
            assert(mapped[5] == (6int, 0int));
            assert(mapped[6] == (6int, -1int));
            assert(mapped[7] == (6int, -2int));
            assert(mapped[8] == (7int, -1int));
            assert(draft@ =~= pentadecathlon_cells());
        }
        CellSetBuilder { draft, committed: b.committed }
    }
}

/// A solid rectangle of cells: the grid `[0, w) x [0, h)`.
pub open spec fn rect_cells(w: int, h: int) -> Set<(int, int)> {
    Set::new(|k: (int, int)| 0 <= k.0 < w && 0 <= k.1 < h)
}

/// A hollow rectangle: the solid `[0, w) x [0, h)` grid with the interior
/// more than `wall` cells away from every edge removed.
pub open spec fn hollow_rect_cells(wall: int, w: int, h: int) -> Set<(int, int)> {
    Set::new(
        |k: (int, int)|
            0 <= k.0 < w && 0 <= k.1 < h && !(wall <= k.0 < w - wall && wall <= k.1 < h - wall),
    )
}

impl CellSetBuilder {
    /// Commits the current draft and drafts up to `number` cells drawn at
    /// random inside `[0, dim.x) x [0, dim.y)`; repeated draws collapse,
    /// so fewer than `number` distinct cells may result.
    pub fn random(self, number: usize, dim: Coord) -> (r: Self)
        requires
            self.wf(),
            0 < dim@.0,
            0 < dim@.1,
        ensures
            r.wf(),
            r.committed@ == self.committed@.union(self.draft@),
            forall|k: (int, int)| r.draft@.contains(k) ==> (0 <= k.0 < dim@.0 && 0 <= k.1 < dim@.1),
            r.draft@.finite(),
            r.draft@.len() <= number,
    {
        let b = self.commit();
        let mut cells: Vec<Coord> = Vec::new();
        let mut n: usize = 0;
        while n < number
            invariant
                0 < dim@.0,
                0 < dim@.1,
                0 <= n <= number,
                cells@.len() <= n,
                forall|p: int, q: int| 0 <= p < q < cells@.len() ==> cells@[p]@ != cells@[q]@,
                forall|p: int|
                    0 <= p < cells@.len() ==> (0 <= #[trigger] cells@[p]@.0 < dim@.0 && 0
                        <= cells@[p]@.1 < dim@.1),
            decreases number - n,
        {
            let a = random_below(dim.x);
            let b2 = random_below(dim.y);
            let c = Coord { x: a, y: b2 };
            if !seq_find_coord(&cells, &c) {
                cells.push(c);
            }
            n += 1;
        }
        let draft = CellSet { cells };
        proof {
            let mapped = draft.cells@.map_values(|c: Coord| c@);
            assert forall|k: (int, int)| draft@.contains(k) implies (0 <= k.0 < dim@.0 && 0 <= k.1
                < dim@.1) by {
                lemma_view_membership(draft.cells@, k);
                let p = choose|p: int| 0 <= p < draft.cells@.len() && draft.cells@[p]@ == k;
                assert(cells@[p]@ == k);
            }
            assert(mapped.no_duplicates());
            mapped.unique_seq_to_set();
        }
        CellSetBuilder { draft, committed: b.committed }
    }

    /// Commits the current draft and drafts a solid `dim.x` by `dim.y`
    /// rectangle of cells anchored at the origin.
    pub fn solid_rect(self, dim: Coord) -> (r: Self)
        requires
            self.wf(),
        ensures
            r.wf(),
            r.committed@ == self.committed@.union(self.draft@),
            r.draft@ == rect_cells(dim@.0, dim@.1),
    {
        let b = self.commit();
        let filled = fill_rect(dim.x, dim.y);
        let draft = CellSet { cells: filled };
        proof {
            assert forall|k: (int, int)| draft@.contains(k) == rect_cells(dim@.0, dim@.1).contains(
                k,
            ) by {
                lemma_view_membership(draft.cells@, k);
            }
            assert(draft@ =~= rect_cells(dim@.0, dim@.1));
        }
        CellSetBuilder { draft, committed: b.committed }
    }

    /// Commits the current draft and drafts a hollow rectangle: the solid
    /// `dim.x` by `dim.y` grid with everything more than `wall_thick`
    /// cells away from every edge removed.
    pub fn hollow_rect(self, wall_thick: i64, dim: Coord) -> (r: Self)
        requires
            self.wf(),
        ensures
            r.wf(),
            r.committed@ == self.committed@.union(self.draft@),
            r.draft@ == hollow_rect_cells(wall_thick as int, dim@.0, dim@.1),
    {
        let b = self.commit();
        let filled = fill_rect(dim.x, dim.y);
        let n = filled.len();
        let mut kept: Vec<Coord> = Vec::new();
        let ghost inner = |k: (int, int)|
            wall_thick <= k.0 < dim@.0 - wall_thick && wall_thick <= k.1 < dim@.1 - wall_thick;
        let mut i: usize = 0;
        while i < n
            invariant
                n == filled@.len(),
                0 <= i <= n,
                forall|p: int, q: int| 0 <= p < q < filled@.len() ==> filled@[p]@ != filled@[q]@,
                forall|k: (int, int)|
                    seq_has_coord(filled@, k) <==> (0 <= k.0 < dim@.0 && 0 <= k.1 < dim@.1),
                inner == (|k: (int, int)|
                    wall_thick <= k.0 < dim@.0 - wall_thick && wall_thick <= k.1 < dim@.1
                        - wall_thick),
                forall|p: int, q: int| 0 <= p < q < kept@.len() ==> kept@[p]@ != kept@[q]@,
                forall|k: (int, int)|
                    seq_has_coord(kept@, k) <==> ((exists|p: int| 0 <= p < i && filled@[p]@ == k)
                        && !inner(k)),
            decreases n - i,
        {
            let c = filled[i];
            let is_inner = wall_thick <= c.x && (c.x as i128) + (wall_thick as i128) < (
            dim.x as i128) && wall_thick <= c.y && (c.y as i128) + (wall_thick as i128) < (
            dim.y as i128);
            let ghost kept_before = kept@;
            if !is_inner {
                proof {
                    assert(!seq_has_coord(kept_before, c@)) by {
                        if seq_has_coord(kept_before, c@) {
                            let p = choose|p: int| 0 <= p < i && filled@[p]@ == c@;
                            assert(filled@[p]@ != filled@[i as int]@);
                        }
                    }
                    lemma_push_fresh_distinct(kept_before, c);
                }
                kept.push(c);
                proof {
                    lemma_push_preserves_has(kept_before, c);
                }
            }
            proof {
                assert(filled@[i as int]@ == c@);
                assert(is_inner == inner(c@));
                assert forall|k: (int, int)|
                    seq_has_coord(kept@, k) == ((exists|p: int| 0 <= p < i + 1 && filled@[p]@ == k)
                        && !inner(k)) by {
                    if seq_has_coord(kept@, k) {
                        if k == c@ {
                            assert(0 <= i < i + 1 && filled@[i as int]@ == k);
                        } else {
                            assert(seq_has_coord(kept_before, k));
                            let p = choose|p: int| 0 <= p < i && filled@[p]@ == k;
                            assert(0 <= p < i + 1 && filled@[p]@ == k);
                        }
                    }
                    if (exists|p: int| 0 <= p < i + 1 && filled@[p]@ == k) && !inner(k) {
                        let p = choose|p: int| 0 <= p < i + 1 && filled@[p]@ == k;
                        if p < i {
                            assert(seq_has_coord(kept_before, k));
                        } else {
                            assert(k == c@);
                        }
                        assert(seq_has_coord(kept@, k));
                    }
                }
            }
            i += 1;
        }
        let draft = CellSet { cells: kept };
        proof {
            assert forall|k: (int, int)| draft@.contains(k) == hollow_rect_cells(
                wall_thick as int,
                dim@.0,
                dim@.1,
            ).contains(k) by {
                lemma_view_membership(draft.cells@, k);
                if seq_has_coord(filled@, k) {
                    let p = choose|p: int| 0 <= p < filled@.len() && filled@[p]@ == k;
                    assert(0 <= p < n && filled@[p]@ == k);
                }
            }
            assert(draft@ =~= hollow_rect_cells(wall_thick as int, dim@.0, dim@.1));
        }
        CellSetBuilder { draft, committed: b.committed }
    }
}

/// Relies on `rand::thread_rng` and `rand::Rng::gen_range`: the drawn
/// value always lies in the given half-open range. Nothing more is
/// assumed of the outcome.
#[verifier::external_body]
fn random_below(bound: i64) -> (r: i64)
    requires
        0 < bound,
    ensures
        0 <= r < bound,
{
    rand::thread_rng().gen_range(0..bound)
}

/// Fills the grid `[0, width) x [0, height)` column by column; the result
/// holds every cell of the rectangle exactly once.
fn fill_rect(width: i64, height: i64) -> (r: Vec<Coord>)
    ensures
        forall|p: int, q: int| 0 <= p < q < r@.len() ==> r@[p]@ != r@[q]@,
        forall|k: (int, int)| seq_has_coord(r@, k) <==> (0 <= k.0 < width && 0 <= k.1 < height),
{
    let mut out: Vec<Coord> = Vec::new();
    if width <= 0 || height <= 0 {
        return out;
    }
    let mut ix: i64 = 0;
    while ix < width
        invariant
            0 < width,
            0 < height,
            0 <= ix <= width,
            forall|p: int, q: int| 0 <= p < q < out@.len() ==> out@[p]@ != out@[q]@,
            forall|k: (int, int)| seq_has_coord(out@, k) <==> (0 <= k.0 < ix && 0 <= k.1 < height),
        decreases width - ix,
    {
        let mut iy: i64 = 0;
        while iy < height
            invariant
                0 < width,
                0 < height,
                0 <= ix < width,
                0 <= iy <= height,
                forall|p: int, q: int| 0 <= p < q < out@.len() ==> out@[p]@ != out@[q]@,
                forall|k: (int, int)|
                    seq_has_coord(out@, k) <==> ((0 <= k.0 < ix && 0 <= k.1 < height) || (k.0
                        == ix && 0 <= k.1 < iy)),
            decreases height - iy,
        {
            let c = Coord { x: ix, y: iy };
            let ghost out_before = out@;
            proof {
                assert(!seq_has_coord(out_before, c@));
                lemma_push_fresh_distinct(out_before, c);
            }
            out.push(c);
            proof {
                lemma_push_preserves_has(out_before, c);
                assert forall|k: (int, int)|
                    seq_has_coord(out@, k) == ((0 <= k.0 < ix && 0 <= k.1 < height) || (k.0
                        == ix && 0 <= k.1 < iy + 1)) by {
                    if seq_has_coord(out@, k) && k != c@ {
                        assert(seq_has_coord(out_before, k));
                    }
                    if k != c@ && ((0 <= k.0 < ix && 0 <= k.1 < height) || (k.0 == ix && 0 <= k.1
                        < iy + 1)) {
                        assert(seq_has_coord(out_before, k));
                        assert(seq_has_coord(out@, k));
                    }
                }
            }
            iy += 1;
        }
        ix += 1;
    }
    out
}

/// Appends to `base` every coordinate of `extra` not already present;
/// the result holds the union of both, each coordinate exactly once.
fn merge_cells(base: Vec<Coord>, extra: &Vec<Coord>) -> (r: Vec<Coord>)
    requires
        forall|p: int, q: int| 0 <= p < q < base@.len() ==> base@[p]@ != base@[q]@,
    ensures
        forall|p: int, q: int| 0 <= p < q < r@.len() ==> r@[p]@ != r@[q]@,
        forall|k: (int, int)|
            seq_has_coord(r@, k) <==> (seq_has_coord(base@, k) || seq_has_coord(extra@, k)),
{
    let n = extra.len();
    let mut out = base;
    let mut i: usize = 0;
    while i < n
        invariant
            n == extra@.len(),
            0 <= i <= n,
            forall|p: int, q: int| 0 <= p < q < out@.len() ==> out@[p]@ != out@[q]@,
            forall|k: (int, int)|
                seq_has_coord(out@, k) <==> (seq_has_coord(base@, k) || (exists|p: int|
                    0 <= p < i && extra@[p]@ == k)),
        decreases n - i,
    {
        let c = extra[i];
        let ghost out_before = out@;
        if !seq_find_coord(&out, &c) {
            out.push(c);
            proof {
                lemma_push_preserves_has(out_before, c);
            }
        }
        proof {
            assert(extra@[i as int]@ == c@);
            assert forall|k: (int, int)|
                seq_has_coord(out@, k) == (seq_has_coord(base@, k) || (exists|p: int|
                    0 <= p < i + 1 && extra@[p]@ == k)) by {
                if seq_has_coord(out@, k) {
                    if k == c@ {
                        assert(0 <= i < i + 1 && extra@[i as int]@ == k);
                    } else {
                        assert(seq_has_coord(out_before, k));
                        if !seq_has_coord(base@, k) {
                            let p = choose|p: int| 0 <= p < i && extra@[p]@ == k;
                            assert(0 <= p < i + 1 && extra@[p]@ == k);
                        }
                    }
                }
                if seq_has_coord(base@, k) || (exists|p: int| 0 <= p < i + 1 && extra@[p]@ == k) {
                    if seq_has_coord(base@, k) {
                        assert(seq_has_coord(out_before, k));
                    } else {
                        let p = choose|p: int| 0 <= p < i + 1 && extra@[p]@ == k;
                        if p < i {
                            assert(seq_has_coord(out_before, k));
                        } else {
                            assert(k == c@);
                        }
                    }
                    assert(seq_has_coord(out@, k));
                }
            }
        }
        i += 1;
    }
    out
}

} // verus!
