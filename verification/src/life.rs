//! Sparse, unbounded-plane Game of Life engine.
//!
//! A `CellSet` is a sparse snapshot of the live cells of an infinite plane:
//! a coordinate is alive exactly when it is a member of the set. One
//! generation is derived from the previous one by `update_cells`, which
//! applies the standard Conway rule to every cell that could possibly
//! change state (the live cells and their Moore neighborhoods).

use rayon::iter::{IntoParallelRefIterator, ParallelIterator};
use vstd::prelude::*;

verus! {

/// A cell coordinate on the plane: a pair of signed integers with value
/// semantics and no bounds beyond the machine word.
#[derive(Clone, Copy, PartialEq, Eq, Hash, Debug)]
pub struct Coord {
    pub x: i64,
    pub y: i64,
}

impl View for Coord {
    type V = (int, int);

    open spec fn view(&self) -> (int, int) {
        (self.x as int, self.y as int)
    }
}

/// The Moore neighborhood of `c`: the 8 coordinates at Chebyshev distance
/// exactly 1 from `c`, excluding `c` itself.
pub open spec fn neighbors_of(c: (int, int)) -> Set<(int, int)> {
    set![
        (c.0 - 1, c.1 - 1),
        (c.0, c.1 - 1),
        (c.0 + 1, c.1 - 1),
        (c.0 - 1, c.1),
        (c.0 + 1, c.1),
        (c.0 - 1, c.1 + 1),
        (c.0, c.1 + 1),
        (c.0 + 1, c.1 + 1),
    ]
}

/// `a` lies within Chebyshev distance 1 of `b` (distance 0 included).
pub open spec fn within_one(a: (int, int), b: (int, int)) -> bool {
    -1 <= a.0 - b.0 <= 1 && -1 <= a.1 - b.1 <= 1
}

/// 1 if `c` is live in `s`, else 0.
pub open spec fn live_ind(s: Set<(int, int)>, c: (int, int)) -> int {
    if s.contains(c) {
        1
    } else {
        0
    }
}

/// How many of the 8 Moore-neighborhood coordinates of `c` are live in `s`.
/// Exactly the 8 positions around `c` are consulted; `c` itself never is.
pub open spec fn neighbor_count(s: Set<(int, int)>, c: (int, int)) -> int {
    live_ind(s, (c.0 - 1, c.1 - 1)) + live_ind(s, (c.0, c.1 - 1)) + live_ind(s, (c.0 + 1, c.1 - 1))
        + live_ind(s, (c.0 - 1, c.1)) + live_ind(s, (c.0 + 1, c.1)) + live_ind(
        s,
        (c.0 - 1, c.1 + 1),
    ) + live_ind(s, (c.0, c.1 + 1)) + live_ind(s, (c.0 + 1, c.1 + 1))
}

/// The standard Conway rule: `c` is alive in the next generation iff it is
/// alive with 2 or 3 live neighbors, or dead with exactly 3 live neighbors.
pub open spec fn alive_next(s: Set<(int, int)>, c: (int, int)) -> bool {
    (s.contains(c) && (neighbor_count(s, c) == 2 || neighbor_count(s, c) == 3)) || (!s.contains(c)
        && neighbor_count(s, c) == 3)
}

/// The next generation of `s`: exactly the coordinates the rule keeps alive.
pub open spec fn spec_step(s: Set<(int, int)>) -> Set<(int, int)> {
    Set::new(|c: (int, int)| alive_next(s, c))
}

/// `c` is far enough from the representable edge that all 8 of its
/// neighbors can be computed in machine integers.
pub open spec fn neighbor_safe(c: (int, int)) -> bool {
    i64::MIN < c.0 < i64::MAX && i64::MIN < c.1 < i64::MAX
}

/// `c` is far enough from the representable edge that a whole generation
/// step around it (neighbors of neighbors) can be computed in machine
/// integers.
pub open spec fn step_safe(c: (int, int)) -> bool {
    i64::MIN + 2 <= c.0 <= i64::MAX - 2 && i64::MIN + 2 <= c.1 <= i64::MAX - 2
}

/// `k` occurs (by value) among the coordinates of `cells`.
pub open spec fn seq_has_coord(cells: Seq<Coord>, k: (int, int)) -> bool {
    exists|i: int| 0 <= i < cells.len() && cells[i]@ == k
}

/// A sparse snapshot of the live cells of one generation.
pub struct CellSet {
    pub cells: Vec<Coord>,
}

impl View for CellSet {
    type V = Set<(int, int)>;

    open spec fn view(&self) -> Set<(int, int)> {
        self.cells@.map_values(|c: Coord| c@).to_set()
    }
}

impl CellSet {
    /// The representation is sparse and duplicate-free: each live cell is
    /// stored exactly once.
    pub open spec fn wf(&self) -> bool {
        forall|i: int, j: int|
            0 <= i < j < self.cells@.len() ==> self.cells@[i]@ != self.cells@[j]@
    }

    pub fn new() -> (r: Self)
        ensures
            r.wf(),
            r@ == Set::<(int, int)>::empty(),
    {
        let r = CellSet { cells: Vec::new() };
        proof {
            assert(r.cells@.map_values(|c: Coord| c@) =~= Seq::<(int, int)>::empty());
            assert(r@ =~= Set::<(int, int)>::empty());
        }
        r
    }

    /// Membership query: is `key` alive in this snapshot?
    pub fn contains(&self, key: &Coord) -> (r: bool)
        ensures
            r == self@.contains(key@),
    {
        proof {
            lemma_view_membership(self.cells@, key@);
        }
        seq_find_coord(&self.cells, key)
    }

    /// The number of live cells in this snapshot.
    pub fn len(&self) -> (n: usize)
        requires
            self.wf(),
        ensures
            n == self@.len(),
    {
        proof {
            let mapped = self.cells@.map_values(|c: Coord| c@);
            assert(mapped.no_duplicates());
            mapped.unique_seq_to_set();
        }
        self.cells.len()
    }

    /// The live cells of this snapshot, each exactly once, in no
    /// particular order. The returned list reflects exactly this snapshot
    /// and is unaffected by later steps.
    pub fn live_cells(&self) -> (r: &Vec<Coord>)
        ensures
            r@ == self.cells@,
    {
        &self.cells
    }

    /// The Moore neighborhood of `key` as a snapshot of its own: always
    /// exactly 8 coordinates, whatever this set contains.
    pub fn get_neighbors_keys(&self, key: &Coord) -> (r: CellSet)
        requires
            neighbor_safe(key@),
        ensures
            r.wf(),
            r@ == neighbors_of(key@),
            r.cells@.len() == 8,
    {
        let x = key.x;
        let y = key.y;
        let mut cells: Vec<Coord> = Vec::new();
        cells.push(Coord { x: x - 1, y: y - 1 });
        cells.push(Coord { x, y: y - 1 });
        cells.push(Coord { x: x + 1, y: y - 1 });
        cells.push(Coord { x: x - 1, y });
        cells.push(Coord { x: x + 1, y });
        cells.push(Coord { x: x - 1, y: y + 1 });
        cells.push(Coord { x, y: y + 1 });
        cells.push(Coord { x: x + 1, y: y + 1 });
        let r = CellSet { cells };
        proof {
            let mapped = r.cells@.map_values(|c: Coord| c@);
            assert(mapped.len() == 8);
            assert(mapped[0] == (key@.0 - 1, key@.1 - 1));
            assert(mapped[1] == (key@.0, key@.1 - 1));
            assert(mapped[2] == (key@.0 + 1, key@.1 - 1));
            assert(mapped[3] == (key@.0 - 1, key@.1));
            assert(mapped[4] == (key@.0 + 1, key@.1));
            assert(mapped[5] == (key@.0 - 1, key@.1 + 1));
            assert(mapped[6] == (key@.0, key@.1 + 1));
            assert(mapped[7] == (key@.0 + 1, key@.1 + 1));
            assert(r@ =~= neighbors_of(key@));
        }
        r
    }

    /// `key` together with its Moore neighborhood: the 9 coordinates whose
    /// next state the presence of `key` can influence.
    pub fn get_self_and_neighbors_keys(&self, key: &Coord) -> (r: CellSet)
        requires
            neighbor_safe(key@),
        ensures
            r.wf(),
            r@ == neighbors_of(key@).insert(key@),
            r.cells@.len() == 9,
    {
        let mut r = self.get_neighbors_keys(key);
        let ghost before = r.cells@;
        proof {
            assert(!neighbors_of(key@).contains(key@));
            lemma_view_membership(before, key@);
        }
        r.cells.push(*key);
        proof {
            lemma_view_push(before, *key);
            assert(r@ =~= neighbors_of(key@).insert(key@));
        }
        r
    }

    /// The number of live Moore neighbors of `key` in this snapshot, in
    /// `[0, 8]`. Exactly the 8 surrounding positions are tested; `key`
    /// itself is never counted, however large the set is.
    pub fn count_neighbors(&self, key: &Coord) -> (r: u8)
        requires
            neighbor_safe(key@),
        ensures
            r as int == neighbor_count(self@, key@),
            r <= 8,
    {
        let x = key.x;
        let y = key.y;
        let mut count: u8 = 0;
        if self.contains(&Coord { x: x - 1, y: y - 1 }) {
            count += 1;
        }
        if self.contains(&Coord { x, y: y - 1 }) {
            count += 1;
        }
        if self.contains(&Coord { x: x + 1, y: y - 1 }) {
            count += 1;
        }
        if self.contains(&Coord { x: x - 1, y }) {
            count += 1;
        }
        if self.contains(&Coord { x: x + 1, y }) {
            count += 1;
        }
        if self.contains(&Coord { x: x - 1, y: y + 1 }) {
            count += 1;
        }
        if self.contains(&Coord { x, y: y + 1 }) {
            count += 1;
        }
        if self.contains(&Coord { x: x + 1, y: y + 1 }) {
            count += 1;
        }
        count
    }

    /// Builds a snapshot from an arbitrary list of coordinates; duplicates
    /// collapse under set semantics.
    pub fn from_cells(cells: Vec<Coord>) -> (r: CellSet)
        ensures
            r.wf(),
            r@ == cells@.map_values(|c: Coord| c@).to_set(),
    {
        let n = cells.len();
        let mut kept: Vec<Coord> = Vec::new();
        let mut i: usize = 0;
        while i < n
            invariant
                n == cells@.len(),
                0 <= i <= n,
                forall|p: int, q: int| 0 <= p < q < kept@.len() ==> kept@[p]@ != kept@[q]@,
                forall|k: (int, int)|
                    seq_has_coord(kept@, k) <==> (exists|p: int| 0 <= p < i && cells@[p]@ == k),
            decreases n - i,
        {
            let c = cells[i];
            let ghost kept_before = kept@;
            if !seq_find_coord(&kept, &c) {
                kept.push(c);
                proof {
                    lemma_push_preserves_has(kept_before, c);
                }
            }
            proof {
                assert(cells@[i as int]@ == c@);
                assert forall|k: (int, int)|
                    seq_has_coord(kept@, k) == (exists|p: int|
                        0 <= p < i + 1 && cells@[p]@ == k) by {
                    if seq_has_coord(kept@, k) {
                        if k == c@ {
                            assert(0 <= i < i + 1 && cells@[i as int]@ == k);
                        } else {
                            assert(seq_has_coord(kept_before, k));
                            let p = choose|p: int| 0 <= p < i && cells@[p]@ == k;
                            assert(0 <= p < i + 1 && cells@[p]@ == k);
                        }
                    }
                    if exists|p: int| 0 <= p < i + 1 && cells@[p]@ == k {
                        let p = choose|p: int| 0 <= p < i + 1 && cells@[p]@ == k;
                        if p < i {
                            assert(seq_has_coord(kept_before, k));
                        } else {
                            assert(k == c@);
                        }
                        assert(seq_has_coord(kept@, k));
                    }
                }
            }
            i += 1;
        }
        let r = CellSet { cells: kept };
        proof {
            assert forall|k: (int, int)| r@.contains(k) == cells@.map_values(
                |c: Coord| c@,
            ).to_set().contains(k) by {
                lemma_view_membership(r.cells@, k);
                lemma_view_membership(cells@, k);
            }
            assert(r@ =~= cells@.map_values(|c: Coord| c@).to_set());
        }
        r
    }

    /// One candidate's evaluation under the Conway rule: does `key` live in
    /// the generation that follows this snapshot?
    pub fn cell_fate(&self, key: &Coord) -> (r: bool)
        requires
            neighbor_safe(key@),
        ensures
            r == alive_next(self@, key@),
    {
        let count = self.count_neighbors(key);
        let alive = self.contains(key);
        (alive && (count == 2 || count == 3)) || (!alive && count == 3)
    }

    /// Derives the next generation: a new snapshot holding exactly the
    /// coordinates the Conway rule keeps alive, the input left untouched.
    /// Candidate cells (each live cell and its 8 neighbors) are evaluated
    /// independently and in parallel over this read-only snapshot.
    pub fn update_cells(&self) -> (r: Self)
        requires
            self.wf(),
            forall|c: (int, int)| self@.contains(c) ==> step_safe(c),
        ensures
            r.wf(),
            r@ == spec_step(self@),
    {
        let n = self.cells.len();
        let mut candidates: Vec<Coord> = Vec::new();
        let mut i: usize = 0;
        while i < n
            invariant
                self.wf(),
                forall|c: (int, int)| self@.contains(c) ==> step_safe(c),
                n == self.cells@.len(),
                0 <= i <= n,
                forall|p: int, q: int|
                    0 <= p < q < candidates@.len() ==> candidates@[p]@ != candidates@[q]@,
                forall|p: int|
                    0 <= p < candidates@.len() ==> neighbor_safe(#[trigger] candidates@[p]@),
                forall|bi: int, k: (int, int)|
                    0 <= bi < i && #[trigger] within_one(k, self.cells@[bi]@)
                        ==> seq_has_coord(candidates@, k),
            decreases n - i,
        {
            let cell = self.cells[i];
            proof {
                assert(self.cells@.map_values(|c: Coord| c@)[i as int] == cell@);
                assert(self.cells@.map_values(|c: Coord| c@).contains(cell@));
                assert(self@.contains(cell@));
                assert(step_safe(cell@));
                assert(neighbor_safe(cell@));
            }
            let block = self.get_self_and_neighbors_keys(&cell);
            let m = block.cells.len();
            let mut j: usize = 0;
            while j < m
                invariant
                    m == block.cells@.len(),
                    0 <= j <= m,
                    block@ == neighbors_of(cell@).insert(cell@),
                    step_safe(cell@),
                    forall|p: int, q: int|
                        0 <= p < q < candidates@.len() ==> candidates@[p]@ != candidates@[q]@,
                    forall|p: int|
                        0 <= p < candidates@.len() ==> neighbor_safe(#[trigger] candidates@[p]@),
                    forall|bi: int, k: (int, int)|
                        0 <= bi < i && #[trigger] within_one(k, self.cells@[bi]@)
                            ==> seq_has_coord(candidates@, k),
                    forall|p: int|
                        0 <= p < j ==> seq_has_coord(candidates@, #[trigger] block.cells@[p]@),
                decreases m - j,
            {
                let k = block.cells[j];
                proof {
                    assert(block.cells@.map_values(|c: Coord| c@)[j as int] == k@);
                    assert(block.cells@.map_values(|c: Coord| c@).contains(k@));
                    assert(block@.contains(k@));
                    assert(within_one(k@, cell@));
                }
                let ghost cand_before = candidates@;
                if !seq_find_coord(&candidates, &k) {
                    candidates.push(k);
                    proof {
                        lemma_push_preserves_has(cand_before, k);
                    }
                }
                j += 1;
            }
            proof {
                assert forall|ki: (int, int)| #[trigger]
                    within_one(ki, cell@) implies seq_has_coord(candidates@, ki) by {
                    assert(block@.contains(ki));
                    lemma_view_membership(block.cells@, ki);
                    let p = choose|p: int| 0 <= p < block.cells@.len() && block.cells@[p]@ == ki;
                    assert(seq_has_coord(candidates@, block.cells@[p]@));
                }
            }
            i += 1;
        }
        let kept = par_filter_fate(self, &candidates);
        let r = CellSet { cells: kept };
        proof {
            let fate = |c: Coord| alive_next(self@, c@);
            broadcast use vstd::seq_lib::group_filter_ensures;

            lemma_filter_keeps_distinct(candidates@, fate);
            assert forall|k: (int, int)| r@.contains(k) == spec_step(self@).contains(k) by {
                lemma_view_membership(r.cells@, k);
                if r@.contains(k) {
                    let p = choose|p: int| 0 <= p < r.cells@.len() && r.cells@[p]@ == k;
                    assert(fate(r.cells@[p]));
                }
                if spec_step(self@).contains(k) {
                    lemma_step_bounded_support(self@, k);
                    let b = choose|b: (int, int)| self@.contains(b) && within_one(k, b);
                    lemma_view_membership(self.cells@, b);
                    let bi = choose|bi: int| 0 <= bi < self.cells@.len() && self.cells@[bi]@ == b;
                    assert(seq_has_coord(candidates@, k));
                    let p = choose|p: int|
                        0 <= p < candidates@.len() && candidates@[p]@ == k;
                    assert(fate(candidates@[p]));
                    assert(candidates@.filter(fate).contains(candidates@[p]));
                    assert(seq_has_coord(r.cells@, k));
                }
            }
            assert(r@ =~= spec_step(self@));
        }
        r
    }
}

/// Evaluates the Conway rule for every candidate of one step, in parallel,
/// over the shared read-only snapshot `set`.
///
/// Relies on rayon's `par_iter`, `ParallelIterator::filter` and
/// `ParallelIterator::collect`: collecting a filtered parallel iterator
/// into a `Vec` yields exactly the elements for which the predicate
/// returned true, in their original order. The predicate itself is the
/// verified `CellSet::cell_fate`.
#[verifier::external_body]
fn par_filter_fate(set: &CellSet, candidates: &Vec<Coord>) -> (r: Vec<Coord>)
    requires
        forall|p: int| 0 <= p < candidates@.len() ==> neighbor_safe(#[trigger] candidates@[p]@),
    ensures
        r@ == candidates@.filter(|c: Coord| alive_next(set@, c@)),
{
    candidates.par_iter().copied().filter(|c| set.cell_fate(c)).collect()
}

/// Stepping the empty population yields the empty population: no live
/// neighbors exist anywhere, so no cell is ever born.
pub proof fn lemma_step_empty()
    ensures
        spec_step(Set::<(int, int)>::empty()) == Set::<(int, int)>::empty(),
{
    assert(spec_step(Set::<(int, int)>::empty()) =~= Set::<(int, int)>::empty());
}

/// Intersecting with a set grown by one fresh element grows the
/// intersection by 1 exactly when the element is present.
proof fn lemma_intersect_insert_len(s: Set<(int, int)>, t: Set<(int, int)>, a: (int, int))
    requires
        !t.contains(a),
        s.intersect(t).finite(),
    ensures
        s.intersect(t.insert(a)).finite(),
        s.intersect(t.insert(a)).len() == s.intersect(t).len() + live_ind(s, a),
{
    if s.contains(a) {
        assert(s.intersect(t.insert(a)) =~= s.intersect(t).insert(a));
        assert(!s.intersect(t).contains(a));
    } else {
        assert(s.intersect(t.insert(a)) =~= s.intersect(t));
    }
}

/// The Moore neighborhood of any coordinate holds exactly 8 coordinates
/// and never the coordinate itself, and `neighbor_count` counts exactly
/// the live part of that neighborhood: it equals the cardinality of the
/// intersection of `s` with the 8 surrounding coordinates, whatever the
/// size of `s`, and so never counts `c` itself.
pub proof fn lemma_neighbor_count_is_moore(s: Set<(int, int)>, c: (int, int))
    ensures
        neighbors_of(c).len() == 8,
        !neighbors_of(c).contains(c),
        neighbor_count(s, c) == s.intersect(neighbors_of(c)).len(),
        0 <= neighbor_count(s, c) <= 8,
{
    let p1 = (c.0 - 1, c.1 - 1);
    let p2 = (c.0, c.1 - 1);
    let p3 = (c.0 + 1, c.1 - 1);
    let p4 = (c.0 - 1, c.1);
    let p5 = (c.0 + 1, c.1);
    let p6 = (c.0 - 1, c.1 + 1);
    let p7 = (c.0, c.1 + 1);
    let p8 = (c.0 + 1, c.1 + 1);
    let t0 = Set::<(int, int)>::empty();
    let t1 = t0.insert(p1);
    let t2 = t1.insert(p2);
    let t3 = t2.insert(p3);
    let t4 = t3.insert(p4);
    let t5 = t4.insert(p5);
    let t6 = t5.insert(p6);
    let t7 = t6.insert(p7);
    let t8 = t7.insert(p8);
    assert(t8 == neighbors_of(c));
    assert(t8.len() == 8);
    assert(s.intersect(t0) =~= Set::<(int, int)>::empty());
    lemma_intersect_insert_len(s, t0, p1);
    lemma_intersect_insert_len(s, t1, p2);
    lemma_intersect_insert_len(s, t2, p3);
    lemma_intersect_insert_len(s, t3, p4);
    lemma_intersect_insert_len(s, t4, p5);
    lemma_intersect_insert_len(s, t5, p6);
    lemma_intersect_insert_len(s, t6, p7);
    lemma_intersect_insert_len(s, t7, p8);
}

/// Bounded support: every coordinate alive after a step lies within
/// Chebyshev distance 1 (distance 0 included) of some coordinate that was
/// alive before it. The step never invents life far from existing life.
pub proof fn lemma_step_bounded_support(s: Set<(int, int)>, k: (int, int))
    requires
        spec_step(s).contains(k),
    ensures
        exists|b: (int, int)| s.contains(b) && within_one(k, b),
{
    if s.contains(k) {
        assert(within_one(k, k));
    } else {
        assert(neighbor_count(s, k) == 3);
        if s.contains((k.0 - 1, k.1 - 1)) {
            assert(within_one(k, (k.0 - 1, k.1 - 1)));
        } else if s.contains((k.0, k.1 - 1)) {
            assert(within_one(k, (k.0, k.1 - 1)));
        } else if s.contains((k.0 + 1, k.1 - 1)) {
            assert(within_one(k, (k.0 + 1, k.1 - 1)));
        } else if s.contains((k.0 - 1, k.1)) {
            assert(within_one(k, (k.0 - 1, k.1)));
        } else if s.contains((k.0 + 1, k.1)) {
            assert(within_one(k, (k.0 + 1, k.1)));
        } else if s.contains((k.0 - 1, k.1 + 1)) {
            assert(within_one(k, (k.0 - 1, k.1 + 1)));
        } else if s.contains((k.0, k.1 + 1)) {
            assert(within_one(k, (k.0, k.1 + 1)));
        } else if s.contains((k.0 + 1, k.1 + 1)) {
            assert(within_one(k, (k.0 + 1, k.1 + 1)));
        } else {
            assert(neighbor_count(s, k) == 0);
        }
    }
}

/// Filtering a duplicate-free coordinate sequence leaves it duplicate-free,
/// and keeps only coordinates that were already present.
proof fn lemma_filter_keeps_distinct(s: Seq<Coord>, pred: spec_fn(Coord) -> bool)
    ensures
        (forall|i: int, j: int| 0 <= i < j < s.len() ==> s[i]@ != s[j]@) ==> (forall|i: int, j: int|
            0 <= i < j < s.filter(pred).len() ==> s.filter(pred)[i]@ != s.filter(pred)[j]@),
        forall|i: int|
            0 <= i < s.filter(pred).len() ==> seq_has_coord(s, #[trigger] s.filter(pred)[i]@),
    decreases s.len(),
{
    reveal(Seq::filter);
    if s.len() == 0 {
    } else {
        let rest = s.drop_last();
        let out = s.filter(pred);
        lemma_filter_keeps_distinct(rest, pred);
        assert(forall|i: int, j: int|
            0 <= i < j < rest.len() ==> rest[i] == s[i] && rest[j] == s[j]);
        assert forall|i: int|
            0 <= i < out.len() implies seq_has_coord(s, #[trigger] out[i]@) by {
            if i < rest.filter(pred).len() {
                assert(out[i] == rest.filter(pred)[i]);
                let w = choose|w: int| 0 <= w < rest.len() && rest[w]@ == rest.filter(pred)[i]@;
                assert(s[w]@ == out[i]@);
            } else {
                assert(out[i] == s.last());
                assert(s[s.len() - 1]@ == out[i]@);
            }
        }
        if forall|i: int, j: int| 0 <= i < j < s.len() ==> s[i]@ != s[j]@ {
            assert forall|i: int, j: int|
                0 <= i < j < out.len() implies out[i]@ != out[j]@ by {
                if j < rest.filter(pred).len() {
                    assert(out[i] == rest.filter(pred)[i] && out[j] == rest.filter(pred)[j]);
                } else {
                    assert(out[j] == s.last());
                    assert(out[i] == rest.filter(pred)[i]);
                    let w = choose|w: int|
                        0 <= w < rest.len() && rest[w]@ == rest.filter(pred)[i]@;
                    assert(s[w]@ != s[s.len() - 1]@);
                }
            }
        }
    }
}

/// Pushing a coordinate onto a vector inserts its value into the set view.
pub(crate) proof fn lemma_view_push(cells: Seq<Coord>, c: Coord)
    ensures
        cells.push(c).map_values(|k: Coord| k@).to_set() == cells.map_values(
            |k: Coord| k@,
        ).to_set().insert(c@),
{
    let f = |k: Coord| k@;
    assert(cells.push(c).map_values(f) =~= cells.map_values(f).push(c@));
    assert forall|k: (int, int)|
        cells.push(c).map_values(f).to_set().contains(k) == cells.map_values(
            f,
        ).to_set().insert(c@).contains(k) by {
        vstd::seq_lib::lemma_seq_contains_after_push(cells.map_values(f), c@, k);
    }
    assert(cells.push(c).map_values(f).to_set() =~= cells.map_values(f).to_set().insert(c@));
}

/// Pushing a coordinate preserves every occurrence and adds the new one.
pub(crate) proof fn lemma_push_preserves_has(cells: Seq<Coord>, c: Coord)
    ensures
        forall|k: (int, int)| seq_has_coord(cells, k) ==> seq_has_coord(cells.push(c), k),
        seq_has_coord(cells.push(c), c@),
        forall|k: (int, int)| seq_has_coord(cells.push(c), k) ==> seq_has_coord(cells, k) || k == c@,
{
    assert(cells.push(c)[cells.len() as int]@ == c@);
    assert forall|k: (int, int)|
        seq_has_coord(cells, k) implies seq_has_coord(cells.push(c), k) by {
        let i = choose|i: int| 0 <= i < cells.len() && cells[i]@ == k;
        assert(cells.push(c)[i]@ == k);
    }
    assert forall|k: (int, int)|
        seq_has_coord(cells.push(c), k) implies seq_has_coord(cells, k) || k == c@ by {
        let i = choose|i: int| 0 <= i < cells.push(c).len() && cells.push(c)[i]@ == k;
        if i < cells.len() {
            assert(cells[i]@ == k);
        }
    }
}

/// Pushing a coordinate that is not yet present keeps the vector
/// duplicate-free.
pub(crate) proof fn lemma_push_fresh_distinct(cells: Seq<Coord>, c: Coord)
    requires
        forall|p: int, q: int| 0 <= p < q < cells.len() ==> cells[p]@ != cells[q]@,
        !seq_has_coord(cells, c@),
    ensures
        forall|p: int, q: int|
            0 <= p < q < cells.push(c).len() ==> cells.push(c)[p]@ != cells.push(c)[q]@,
{
    assert forall|p: int, q: int|
        0 <= p < q < cells.push(c).len() implies cells.push(c)[p]@ != cells.push(c)[q]@ by {
        if q == cells.len() {
            assert(cells.push(c)[p] == cells[p]);
            if cells[p]@ == c@ {
                assert(0 <= p < cells.len() && cells[p]@ == c@);
                assert(seq_has_coord(cells, c@));
            }
        } else {
            assert(cells.push(c)[p] == cells[p] && cells.push(c)[q] == cells[q]);
        }
    }
}

/// Membership in the set view of a coordinate vector coincides with
/// occurrence in the underlying sequence.
pub(crate) proof fn lemma_view_membership(cells: Seq<Coord>, k: (int, int))
    ensures
        cells.map_values(|c: Coord| c@).to_set().contains(k) == seq_has_coord(cells, k),
{
    let mapped = cells.map_values(|c: Coord| c@);
    if seq_has_coord(cells, k) {
        let i = choose|i: int| 0 <= i < cells.len() && cells[i]@ == k;
        assert(mapped[i] == k);
        assert(mapped.contains(k));
    }
    if mapped.to_set().contains(k) {
        let i = choose|i: int| 0 <= i < mapped.len() && mapped[i] == k;
        assert(cells[i]@ == k);
    }
}

/// Linear scan for a coordinate in a vector.
pub(crate) fn seq_find_coord(cells: &Vec<Coord>, key: &Coord) -> (r: bool)
    ensures
        r == seq_has_coord(cells@, key@),
{
    let n = cells.len();
    let mut i: usize = 0;
    while i < n
        invariant
            n == cells@.len(),
            0 <= i <= n,
            forall|j: int| 0 <= j < i ==> cells@[j]@ != key@,
        decreases n - i,
    {
        if cells[i].x == key.x && cells[i].y == key.y {
            return true;
        }
        i += 1;
    }
    false
}

} // verus!
