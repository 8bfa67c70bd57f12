//! The sparse live-cell set and the one-generation evaluation algorithm.
//!
//! A [`Board`] owns the set of live cells of an unbounded grid; a cell that
//! is absent is dead. The board is viewed abstractly as a `Set<(int, int)>`
//! of live coordinates, and every operation is specified against that set.

use vstd::prelude::*;

use crate::cell::Cell;

verus! {

/// The set of coordinate pairs held by a sequence of cells.
pub open spec fn live_set(s: Seq<Cell>) -> Set<(int, int)> {
    Set::new(|p: (int, int)| exists|i: int| 0 <= i < s.len() && s[i]@ == p)
}

/// The eight Moore-neighborhood coordinates of `p`, in the fixed order the
/// board enumerates them.
pub open spec fn neighbors_of(p: (int, int)) -> Seq<(int, int)> {
    seq![
        (p.0 - 1, p.1 + 1),
        (p.0 - 1, p.1),
        (p.0 - 1, p.1 - 1),
        (p.0, p.1 + 1),
        (p.0, p.1 - 1),
        (p.0 + 1, p.1 + 1),
        (p.0 + 1, p.1),
        (p.0 + 1, p.1 - 1),
    ]
}

/// How many coordinates of `q` are members of `s`.
pub open spec fn count_live(s: Set<(int, int)>, q: Seq<(int, int)>) -> int
    decreases q.len(),
{
    if q.len() == 0 {
        0
    } else {
        count_live(s, q.drop_last()) + if s.contains(q.last()) {
            1int
        } else {
            0int
        }
    }
}

/// The number of live neighbors of `p` under the live set `s`.
pub open spec fn live_count(s: Set<(int, int)>, p: (int, int)) -> int {
    count_live(s, neighbors_of(p))
}

/// Whether `p` is alive in the generation after `s`, by the Game-of-Life
/// rule: a live cell survives with 2 or 3 live neighbors, a dead cell is
/// born with exactly 3 live neighbors, and every other cell is dead.
pub open spec fn next_alive(s: Set<(int, int)>, p: (int, int)) -> bool {
    if s.contains(p) {
        live_count(s, p) == 2 || live_count(s, p) == 3
    } else {
        live_count(s, p) == 3
    }
}

/// The whole next generation of the live set `s`.
pub open spec fn next_gen(s: Set<(int, int)>) -> Set<(int, int)> {
    Set::new(|p: (int, int)| next_alive(s, p))
}

/// Flipping the membership of `p` in `s`.
pub open spec fn toggle_spec(s: Set<(int, int)>, p: (int, int)) -> Set<(int, int)> {
    if s.contains(p) {
        s.remove(p)
    } else {
        s.insert(p)
    }
}

/// Coordinates far enough from the `i64` limits that every neighbor of a
/// neighbor still exists; `evaluate` asks this of each live cell.
pub open spec fn coord_in_core(p: (int, int)) -> bool {
    &&& i64::MIN + 2 <= p.0 <= i64::MAX - 2
    &&& i64::MIN + 2 <= p.1 <= i64::MAX - 2
}

/// The set of coordinates a sequence of buffered decisions speaks about.
spec fn decided_set(d: Seq<(Cell, bool)>) -> Set<(int, int)> {
    Set::new(|p: (int, int)| exists|k: int| 0 <= k < d.len() && d[k].0@ == p)
}

/// A coordinate is a Moore neighbor of `p` exactly when it differs from `p`
/// and both components differ by at most one.
pub proof fn lemma_neighbors_characterization(p: (int, int), q: (int, int))
    ensures
        neighbors_of(p).contains(q) <==> (q != p && -1 <= q.0 - p.0 <= 1 && -1 <= q.1 - p.1
            <= 1),
{
    let ns = neighbors_of(p);
    if ns.contains(q) {
        let i = choose|i: int| 0 <= i < ns.len() && ns[i] == q;
        assert(q != p && -1 <= q.0 - p.0 <= 1 && -1 <= q.1 - p.1 <= 1);
    }
    if q != p && -1 <= q.0 - p.0 <= 1 && -1 <= q.1 - p.1 <= 1 {
        if q.0 == p.0 - 1 && q.1 == p.1 + 1 {
            assert(ns[0] == q);
        } else if q.0 == p.0 - 1 && q.1 == p.1 {
            assert(ns[1] == q);
        } else if q.0 == p.0 - 1 && q.1 == p.1 - 1 {
            assert(ns[2] == q);
        } else if q.0 == p.0 && q.1 == p.1 + 1 {
            assert(ns[3] == q);
        } else if q.0 == p.0 && q.1 == p.1 - 1 {
            assert(ns[4] == q);
        } else if q.0 == p.0 + 1 && q.1 == p.1 + 1 {
            assert(ns[5] == q);
        } else if q.0 == p.0 + 1 && q.1 == p.1 {
            assert(ns[6] == q);
        } else {
            assert(q.0 == p.0 + 1 && q.1 == p.1 - 1);
            assert(ns[7] == q);
        }
        assert(ns.contains(q));
    }
}

/// The Moore-neighbor relation is symmetric.
pub proof fn lemma_neighbors_symmetric(p: (int, int), q: (int, int))
    ensures
        neighbors_of(p).contains(q) == neighbors_of(q).contains(p),
{
    lemma_neighbors_characterization(p, q);
    lemma_neighbors_characterization(q, p);
}

/// A membership count over a sequence lies between zero and the length.
pub proof fn lemma_count_live_bound(s: Set<(int, int)>, q: Seq<(int, int)>)
    ensures
        0 <= count_live(s, q) <= q.len(),
    decreases q.len(),
{
    if q.len() > 0 {
        lemma_count_live_bound(s, q.drop_last());
    }
}

/// A positive membership count names at least one member.
pub proof fn lemma_count_live_pos(s: Set<(int, int)>, q: Seq<(int, int)>)
    requires
        count_live(s, q) > 0,
    ensures
        exists|i: int| 0 <= i < q.len() && s.contains(q[i]),
    decreases q.len(),
{
    if s.contains(q.last()) {
        assert(q[q.len() - 1] == q.last());
    } else {
        lemma_count_live_pos(s, q.drop_last());
        let i = choose|i: int| 0 <= i < q.drop_last().len() && s.contains(q.drop_last()[i]);
        assert(q.drop_last()[i] == q[i]);
    }
}

/// When every coordinate of the sequence is a member, the count is the
/// whole length.
pub proof fn lemma_count_live_all(s: Set<(int, int)>, q: Seq<(int, int)>)
    requires
        forall|i: int| 0 <= i < q.len() ==> s.contains(q[i]),
    ensures
        count_live(s, q) == q.len(),
    decreases q.len(),
{
    if q.len() > 0 {
        assert(s.contains(q[q.len() - 1]));
        lemma_count_live_all(s, q.drop_last());
    }
}


/// Pushing one decision adds exactly its coordinate to the decided set.
proof fn lemma_decided_set_push(d: Seq<(Cell, bool)>, e: (Cell, bool))
    ensures
        decided_set(d.push(e)) == decided_set(d).insert(e.0@),
{
    let dn = d.push(e);
    assert forall|p: (int, int)| decided_set(dn).contains(p) implies decided_set(d).insert(
        e.0@,
    ).contains(p) by {
        let k = choose|k: int| 0 <= k < dn.len() && dn[k].0@ == p;
        if k < d.len() {
            assert(d[k].0@ == p);
        }
    }
    assert forall|p: (int, int)| decided_set(d).insert(e.0@).contains(p) implies decided_set(
        dn,
    ).contains(p) by {
        if p == e.0@ {
            assert(dn[d.len() as int].0@ == p);
        } else {
            let k = choose|k: int| 0 <= k < d.len() && d[k].0@ == p;
            assert(dn[k].0@ == p);
        }
    }
    assert(decided_set(d.push(e)) =~= decided_set(d).insert(e.0@));
}

/// A live set built from pairwise distinct cells is finite, with exactly
/// one member per cell.
pub proof fn lemma_live_set_card(s: Seq<Cell>)
    requires
        forall|i: int, j: int| 0 <= i < j < s.len() ==> s[i] != s[j],
    ensures
        live_set(s).finite(),
        live_set(s).len() == s.len(),
    decreases s.len(),
{
    if s.len() == 0 {
        assert(live_set(s) =~= Set::<(int, int)>::empty());
    } else {
        let t = s.drop_last();
        lemma_live_set_card(t);
        assert forall|p: (int, int)| live_set(s).contains(p) implies live_set(t).insert(
            s.last()@,
        ).contains(p) by {
            let i = choose|i: int| 0 <= i < s.len() && s[i]@ == p;
            if i < t.len() {
                assert(t[i]@ == p);
            }
        }
        assert forall|p: (int, int)| live_set(t).insert(s.last()@).contains(p) implies live_set(
            s,
        ).contains(p) by {
            if p == s.last()@ {
                assert(s[s.len() - 1]@ == p);
            } else {
                let i = choose|i: int| 0 <= i < t.len() && t[i]@ == p;
                assert(s[i]@ == p);
            }
        }
        assert(live_set(s) =~= live_set(t).insert(s.last()@));
        assert(!live_set(t).contains(s.last()@)) by {
            if live_set(t).contains(s.last()@) {
                let i = choose|i: int| 0 <= i < t.len() && t[i]@ == s.last()@;
                assert(s[i] == s[s.len() - 1]);
            }
        }
    }
}

/// Membership in `s`, as a predicate on coordinates.
pub open spec fn member_of(s: Set<(int, int)>) -> spec_fn((int, int)) -> bool {
    |p: (int, int)| s.contains(p)
}

/// Counting memberships over a sequence is the length of the sequence
/// filtered to the members.
pub proof fn lemma_count_live_is_filter_len(s: Set<(int, int)>, q: Seq<(int, int)>)
    ensures
        count_live(s, q) == q.filter(member_of(s)).len(),
    decreases q.len(),
{
    reveal(Seq::filter);
    if q.len() > 0 {
        lemma_count_live_is_filter_len(s, q.drop_last());
    }
}

/// A sparse Game-of-Life board: exactly the live cells, in no meaningful
/// order. The view of a board is its live set.
pub struct Board {
    cells: Vec<Cell>,
}

impl View for Board {
    type V = Set<(int, int)>;

    closed spec fn view(&self) -> Set<(int, int)> {
        live_set(self.cells@)
    }
}

impl Board {
    /// The storage never holds the same coordinate twice.
    #[verifier::type_invariant]
    spec fn inv(self) -> bool {
        forall|i: int, j: int|
            0 <= i < j < self.cells@.len() ==> self.cells@[i] != self.cells@[j]
    }

    /// An empty board: no cell is alive.
    pub fn default() -> (b: Board)
        ensures
            b@ == Set::<(int, int)>::empty(),
    {
        let b = Board { cells: Vec::new() };
        proof {
            assert(b@ =~= Set::<(int, int)>::empty());
        }
        b
    }

    /// Whether `cell` is currently alive.
    pub fn contains(&self, cell: &Cell) -> (r: bool)
        ensures
            r == self@.contains(cell@),
    {
        let n = self.cells.len();
        let mut i: usize = 0;
        while i < n
            invariant
                i <= n,
                n == self.cells@.len(),
                forall|j: int| 0 <= j < i ==> self.cells@[j]@ != cell@,
            decreases n - i,
        {
            if self.cells[i].x == cell.x && self.cells[i].y == cell.y {
                proof {
                    assert(self.cells@[i as int]@ == cell@);
                }
                return true;
            }
            i += 1;
        }
        false
    }

    /// Adds `cell` to the live set; a no-op when it is already alive.
    pub fn insert(&mut self, cell: Cell)
        ensures
            final(self)@ == old(self)@.insert(cell@),
    {
        proof {
            use_type_invariant(&*self);
        }
        let present = self.contains(&cell);
        if !present {
            let mut v: Vec<Cell> = Vec::new();
            core::mem::swap(&mut v, &mut self.cells);
            v.push(cell);
            core::mem::swap(&mut v, &mut self.cells);
            proof {
                let s_old = old(self).cells@;
                let s_new = self.cells@;
                assert forall|p: (int, int)| live_set(s_new).contains(p) implies old(
                    self,
                )@.insert(cell@).contains(p) by {
                    let i = choose|i: int| 0 <= i < s_new.len() && s_new[i]@ == p;
                    if i < s_old.len() {
                        assert(live_set(s_old).contains(p));
                    }
                }
                assert forall|p: (int, int)| old(self)@.insert(cell@).contains(p) implies live_set(
                    s_new,
                ).contains(p) by {
                    if p == cell@ {
                        assert(s_new[s_old.len() as int]@ == p);
                    } else {
                        let i = choose|i: int| 0 <= i < s_old.len() && s_old[i]@ == p;
                        assert(s_new[i]@ == p);
                    }
                }
                assert(self@ =~= old(self)@.insert(cell@));
            }
        } else {
            proof {
                assert(self@ =~= old(self)@.insert(cell@));
            }
        }
    }

    /// Removes `cell` from the live set; a no-op when it is already dead.
    pub fn remove(&mut self, cell: &Cell)
        ensures
            final(self)@ == old(self)@.remove(cell@),
    {
        proof {
            use_type_invariant(&*self);
        }
        let n = self.cells.len();
        let mut i: usize = 0;
        while i < n
            invariant
                i <= n,
                n == self.cells@.len(),
                *self == *old(self),
                forall|j: int| 0 <= j < i ==> self.cells@[j]@ != cell@,
                old(self).inv(),
            decreases n - i,
        {
            if self.cells[i].x == cell.x && self.cells[i].y == cell.y {
                let mut v: Vec<Cell> = Vec::new();
                core::mem::swap(&mut v, &mut self.cells);
                v.remove(i);
                core::mem::swap(&mut v, &mut self.cells);
                proof {
                    let s_old = old(self).cells@;
                    let s_new = self.cells@;
                    assert(s_old[i as int]@ == cell@);
                    assert forall|p: (int, int)| live_set(s_new).contains(p) implies old(
                        self,
                    )@.remove(cell@).contains(p) by {
                        let k = choose|k: int| 0 <= k < s_new.len() && s_new[k]@ == p;
                        if k < i {
                            assert(s_new[k] == s_old[k]);
                            assert(s_old[k]@ == p);
                            assert(s_old[k] != s_old[i as int]);
                            assert(p != cell@);
                        } else {
                            assert(s_new[k] == s_old[k + 1]);
                            assert(s_old[k + 1]@ == p);
                            assert(s_old[k + 1] != s_old[i as int]);
                            assert(p != cell@);
                        }
                    }
                    assert forall|p: (int, int)| old(self)@.remove(cell@).contains(p) implies live_set(
                        s_new,
                    ).contains(p) by {
                        let k = choose|k: int| 0 <= k < s_old.len() && s_old[k]@ == p;
                        if k < i {
                            assert(s_new[k] == s_old[k]);
                            assert(s_new[k]@ == p);
                        } else {
                            assert(k != i);
                            assert(s_new[k - 1] == s_old[k]);
                            assert(s_new[k - 1]@ == p);
                        }
                    }
                    assert(self@ =~= old(self)@.remove(cell@));
                    assert forall|a: int, b: int|
                        0 <= a < b < s_new.len() implies s_new[a] != s_new[b] by {
                        if b < i {
                            assert(s_new[a] == s_old[a] && s_new[b] == s_old[b]);
                        } else if a < i {
                            assert(s_new[a] == s_old[a] && s_new[b] == s_old[b + 1]);
                        } else {
                            assert(s_new[a] == s_old[a + 1] && s_new[b] == s_old[b + 1]);
                        }
                    }
                }
                return;
            }
            i += 1;
        }
        proof {
            assert(!self@.contains(cell@));
            assert(self@ =~= old(self)@.remove(cell@));
        }
    }

    /// Marks the coordinate `(x, y)` alive.
    pub fn set(&mut self, x: i32, y: i32)
        ensures
            final(self)@ == old(self)@.insert((x as int, y as int)),
    {
        let cell = Cell::new(x as i64, y as i64);
        self.insert(cell);
    }

    /// Marks the coordinate `(x, y)` dead.
    pub fn unset(&mut self, x: i32, y: i32)
        ensures
            final(self)@ == old(self)@.remove((x as int, y as int)),
    {
        let cell = Cell::new(x as i64, y as i64);
        self.remove(&cell);
    }

    /// Flips the liveness of `(x, y)`: a live cell dies, a dead one is born.
    /// Exactly that one membership changes.
    pub fn toggle(&mut self, x: i32, y: i32)
        ensures
            final(self)@ == toggle_spec(old(self)@, (x as int, y as int)),
    {
        let cell = Cell::new(x as i64, y as i64);
        let present = self.contains(&cell);
        if present {
            self.remove(&cell);
        } else {
            self.insert(cell);
        }
    }

    /// An independent deep copy: the copy and the original share no state.
    pub fn copy(&self) -> (b: Board)
        ensures
            b@ == self@,
    {
        proof {
            use_type_invariant(self);
        }
        let n = self.cells.len();
        let mut v: Vec<Cell> = Vec::new();
        let mut i: usize = 0;
        while i < n
            invariant
                i <= n,
                n == self.cells@.len(),
                v@ == self.cells@.take(i as int),
            decreases n - i,
        {
            v.push(self.cells[i]);
            proof {
                assert(v@ =~= self.cells@.take(i + 1));
            }
            i += 1;
        }
        proof {
            assert(v@ =~= self.cells@);
        }
        Board { cells: v }
    }

    /// A snapshot of all live cells, in no guaranteed order, each exactly
    /// once.
    pub fn get_cells(&self) -> (v: Vec<Cell>)
        ensures
            live_set(v@) == self@,
            forall|i: int, j: int| 0 <= i < j < v@.len() ==> v@[i] != v@[j],
            self@.finite(),
            v@.len() == self@.len(),
    {
        let b = self.copy();
        proof {
            use_type_invariant(&b);
            lemma_live_set_card(b.cells@);
        }
        b.cells
    }

    /// The eight Moore neighbors of `cell`, in the fixed documented order:
    /// the column to the left top to bottom, the cell's own column above and
    /// below, then the column to the right top to bottom.
    pub fn surrounds(&self, cell: &Cell) -> (r: [Cell; 8])
        requires
            i64::MIN < cell.x < i64::MAX,
            i64::MIN < cell.y < i64::MAX,
        ensures
            forall|i: int| 0 <= i < 8 ==> r@[i]@ == neighbors_of(cell@)[i],
    {
        let cells: [Cell; 8] = [
            Cell::new(cell.x - 1, cell.y + 1),
            Cell::new(cell.x - 1, cell.y),
            Cell::new(cell.x - 1, cell.y - 1),
            Cell::new(cell.x, cell.y + 1),
            Cell::new(cell.x, cell.y - 1),
            Cell::new(cell.x + 1, cell.y + 1),
            Cell::new(cell.x + 1, cell.y),
            Cell::new(cell.x + 1, cell.y - 1),
        ];
        cells
    }

    /// The live-neighbor count of `cell` together with its neighbor array.
    fn surround_data(&self, cell: &Cell) -> (r: (u8, [Cell; 8]))
        requires
            i64::MIN < cell.x < i64::MAX,
            i64::MIN < cell.y < i64::MAX,
        ensures
            r.0 as int == live_count(self@, cell@),
            forall|i: int| 0 <= i < 8 ==> r.1@[i]@ == neighbors_of(cell@)[i],
    {
        let neighbor_cells = self.surrounds(cell);
        let ghost nseq = neighbors_of(cell@);
        let mut count: u8 = 0;
        let mut i: usize = 0;
        while i < 8
            invariant
                i <= 8,
                nseq == neighbors_of(cell@),
                forall|j: int| 0 <= j < 8 ==> neighbor_cells@[j]@ == nseq[j],
                count as int == count_live(self@, nseq.take(i as int)),
                count <= i,
            decreases 8 - i,
        {
            let hit = self.contains(&neighbor_cells[i]);
            proof {
                assert(nseq.take(i as int + 1).drop_last() =~= nseq.take(i as int));
                assert(nseq.take(i as int + 1).last() == nseq[i as int]);
            }
            if hit {
                count += 1;
            }
            i += 1;
        }
        proof {
            assert(nseq.take(8) =~= nseq);
        }
        (count, neighbor_cells)
    }

    /// How many of the eight neighbors of `cell` are currently alive.
    pub fn surround_count(&self, cell: &Cell) -> (r: u8)
        requires
            i64::MIN < cell.x < i64::MAX,
            i64::MIN < cell.y < i64::MAX,
        ensures
            r as int == live_count(self@, cell@),
            r <= 8,
    {
        let data = self.surround_data(cell);
        proof {
            lemma_count_live_bound(self@, neighbors_of(cell@));
        }
        data.0
    }

    /// Whether `cell` is alive in the next generation of this board.
    fn next_state(&self, cell: &Cell) -> (r: bool)
        requires
            i64::MIN < cell.x < i64::MAX,
            i64::MIN < cell.y < i64::MAX,
        ensures
            r == next_alive(self@, cell@),
    {
        let count = self.surround_count(cell);
        let alive = self.contains(cell);
        if alive {
            count == 2 || count == 3
        } else {
            count == 3
        }
    }

    /// Whether a decision for `cell` is already buffered.
    fn find_decision(decisions: &Vec<(Cell, bool)>, cell: &Cell) -> (r: bool)
        ensures
            r == decided_set(decisions@).contains(cell@),
    {
        let n = decisions.len();
        let mut k: usize = 0;
        while k < n
            invariant
                k <= n,
                n == decisions@.len(),
                forall|j: int| 0 <= j < k ==> decisions@[j].0@ != cell@,
            decreases n - k,
        {
            let e = decisions[k];
            if e.0.x == cell.x && e.0.y == cell.y {
                proof {
                    assert(decisions@[k as int].0@ == cell@);
                }
                return true;
            }
            k += 1;
        }
        false
    }

    /// Advances the whole board by exactly one generation, in place.
    ///
    /// Every liveness decision is computed from the snapshot of the live set
    /// at entry, then all decisions are applied at once, so the transition
    /// is atomic and independent of iteration order. Only live cells and
    /// their neighbors are ever visited; that suffices, because a dead cell
    /// with no live neighbor cannot be born.
    pub fn evaluate(&mut self)
        requires
            forall|p: (int, int)| old(self)@.contains(p) ==> coord_in_core(p),
        ensures
            final(self)@ == next_gen(old(self)@),
    {
        let ghost s0 = self@;
        let mut decisions: Vec<(Cell, bool)> = Vec::new();
        let n = self.cells.len();
        let mut i: usize = 0;
        while i < n
            invariant
                i <= n,
                n == self.cells@.len(),
                *self == *old(self),
                s0 == self@,
                forall|p: (int, int)| s0.contains(p) ==> coord_in_core(p),
                forall|k: int|
                    0 <= k < decisions@.len() ==> decisions@[k].1 == next_alive(
                        s0,
                        decisions@[k].0@,
                    ),
                forall|j: int|
                    0 <= j < i ==> decided_set(decisions@).contains(self.cells@[j]@),
                forall|j: int, m: int|
                    0 <= j < i && 0 <= m < 8 ==> decided_set(decisions@).contains(
                        neighbors_of(self.cells@[j]@)[m],
                    ),
            decreases n - i,
        {
            let c = self.cells[i];
            proof {
                assert(self.cells@[i as int]@ == c@);
                assert(s0.contains(c@));
                assert(coord_in_core(c@));
            }
            if !Self::find_decision(&decisions, &c) {
                let verdict = self.next_state(&c);
                let ghost dpre = decisions@;
                decisions.push((c, verdict));
                proof {
                    lemma_decided_set_push(dpre, (c, verdict));
                }
            }
            proof {
                assert(decided_set(decisions@).contains(c@));
            }
            let neigh = self.surrounds(&c);
            let ghost nseq = neighbors_of(c@);
            let mut m: usize = 0;
            while m < 8
                invariant
                    m <= 8,
                    i < n,
                    n == self.cells@.len(),
                    *self == *old(self),
                    s0 == self@,
                    forall|p: (int, int)| s0.contains(p) ==> coord_in_core(p),
                    c == self.cells@[i as int],
                    coord_in_core(c@),
                    nseq == neighbors_of(c@),
                    forall|j: int| 0 <= j < 8 ==> neigh@[j]@ == nseq[j],
                    forall|k: int|
                        0 <= k < decisions@.len() ==> decisions@[k].1 == next_alive(
                            s0,
                            decisions@[k].0@,
                        ),
                    forall|j: int|
                        0 <= j < i ==> decided_set(decisions@).contains(self.cells@[j]@),
                    forall|j: int, mm: int|
                        0 <= j < i && 0 <= mm < 8 ==> decided_set(decisions@).contains(
                            neighbors_of(self.cells@[j]@)[mm],
                        ),
                    decided_set(decisions@).contains(c@),
                    forall|mm: int|
                        0 <= mm < m ==> decided_set(decisions@).contains(nseq[mm]),
                decreases 8 - m,
            {
                let nb = neigh[m];
                proof {
                    assert(nseq[m as int] == nb@);
                    assert(nseq.contains(nb@));
                    lemma_neighbors_characterization(c@, nb@);
                }
                if !Self::find_decision(&decisions, &nb) {
                    let verdict = self.next_state(&nb);
                    let ghost dpre = decisions@;
                    decisions.push((nb, verdict));
                    proof {
                        lemma_decided_set_push(dpre, (nb, verdict));
                    }
                }
                proof {
                    assert(decided_set(decisions@).contains(nb@));
                }
                m += 1;
            }
            i += 1;
        }
        // All decisions are buffered; now commit them to the live set.
        let dn = decisions.len();
        let mut k: usize = 0;
        while k < dn
            invariant
                k <= dn,
                dn == decisions@.len(),
                s0 == old(self)@,
                forall|kk: int|
                    0 <= kk < decisions@.len() ==> decisions@[kk].1 == next_alive(
                        s0,
                        decisions@[kk].0@,
                    ),
                forall|j: int|
                    0 <= j < old(self).cells@.len() ==> decided_set(decisions@).contains(
                        old(self).cells@[j]@,
                    ),
                forall|j: int, mm: int|
                    0 <= j < old(self).cells@.len() && 0 <= mm < 8 ==> decided_set(
                        decisions@,
                    ).contains(neighbors_of(old(self).cells@[j]@)[mm]),
                forall|p: (int, int)|
                    self@.contains(p) == (if decided_set(
                        decisions@.take(k as int),
                    ).contains(p) {
                        next_alive(s0, p)
                    } else {
                        s0.contains(p)
                    }),
            decreases dn - k,
        {
            let e = decisions[k];
            let ghost prev = self@;
            if e.1 {
                self.insert(e.0);
            } else {
                self.remove(&e.0);
            }
            proof {
                let dk = decisions@.take(k as int);
                let dk1 = decisions@.take(k as int + 1);
                assert(dk1.drop_last() =~= dk);
                assert(dk1[k as int] == decisions@[k as int]);
                assert forall|p: (int, int)|
                    self@.contains(p) == (if decided_set(dk1).contains(p) {
                        next_alive(s0, p)
                    } else {
                        s0.contains(p)
                    }) by {
                    if p == e.0@ {
                        assert(decided_set(dk1).contains(p));
                        assert(self@.contains(p) == e.1);
                    } else {
                        assert(self@.contains(p) == prev.contains(p));
                        if decided_set(dk1).contains(p) {
                            let j = choose|j: int| 0 <= j < dk1.len() && dk1[j].0@ == p;
                            assert(j < dk.len());
                            assert(dk[j].0@ == p);
                            assert(decided_set(dk).contains(p));
                        } else {
                            if decided_set(dk).contains(p) {
                                let j = choose|j: int| 0 <= j < dk.len() && dk[j].0@ == p;
                                assert(dk1[j].0@ == p);
                            }
                        }
                    }
                }
            }
            k += 1;
        }
        proof {
            assert(decisions@.take(dn as int) =~= decisions@);
            assert forall|p: (int, int)| self@.contains(p) == next_gen(s0).contains(p) by {
                if decided_set(decisions@).contains(p) {
                    let j = choose|j: int|
                        0 <= j < decisions@.len() && decisions@[j].0@ == p;
                    assert(decisions@[j].1 == next_alive(s0, p));
                } else {
                    if s0.contains(p) {
                        let j = choose|j: int|
                            0 <= j < old(self).cells@.len() && old(self).cells@[j]@ == p;
                        assert(decided_set(decisions@).contains(old(self).cells@[j]@));
                    } else {
                        assert(self@.contains(p) == s0.contains(p));
                        if next_alive(s0, p) {
                            lemma_count_live_pos(s0, neighbors_of(p));
                            let ii = choose|ii: int|
                                0 <= ii < neighbors_of(p).len() && s0.contains(
                                    neighbors_of(p)[ii],
                                );
                            let qq = neighbors_of(p)[ii];
                            lemma_neighbors_symmetric(p, qq);
                            assert(neighbors_of(qq).contains(p));
                            let j = choose|j: int|
                                0 <= j < old(self).cells@.len() && old(self).cells@[j]@
                                    == qq;
                            let mm = choose|mm: int|
                                0 <= mm < neighbors_of(qq).len() && neighbors_of(qq)[mm]
                                    == p;
                            assert(decided_set(decisions@).contains(
                                neighbors_of(old(self).cells@[j]@)[mm],
                            ));
                        }
                    }
                }
            }
            assert(self@ =~= next_gen(s0));
        }
    }
}

} // verus!
