use std::collections::{HashMap, HashSet};

use vstd::prelude::*;

use crate::cell::{in_interior, in_range, is_neighbour, lemma_cell_in_range, neighbour_list, shifted, Cell};

verus! {

broadcast use vstd::std_specs::hash::group_hash_axioms, lemma_cell_in_range;

/// How many of the `k` first Moore neighbours of `p` (in the order of the
/// offset table) are in `s`.
pub open spec fn neighbours_alive(s: Set<(int, int)>, p: (int, int), k: int) -> int
    decreases k,
{
    if k <= 0 {
        0
    } else {
        neighbours_alive(s, p, k - 1) + if s.contains(shifted(p, k - 1)) {
            1int
        } else {
            0
        }
    }
}

/// The number of live cells among the eight Moore neighbours of `p`.
pub open spec fn live_neighbour_count(s: Set<(int, int)>, p: (int, int)) -> int {
    neighbours_alive(s, p, 8)
}

/// The rule of the game: a live cell survives with two or three live
/// neighbours, a dead cell is born with exactly three.
pub open spec fn lives_next(s: Set<(int, int)>, p: (int, int)) -> bool {
    if s.contains(p) {
        live_neighbour_count(s, p) == 2 || live_neighbour_count(s, p) == 3
    } else {
        live_neighbour_count(s, p) == 3
    }
}

/// The generation that follows the live set `s`, among the coordinates that a
/// `Cell` can hold.
pub open spec fn next_generation(s: Set<(int, int)>) -> Set<(int, int)> {
    Set::new(|p: (int, int)| in_range(p) && lives_next(s, p))
}

/// `c` is one of the first `k` Moore neighbours of `p`.
spec fn among_first(p: (int, int), c: (int, int), k: int) -> bool {
    exists|m: int| 0 <= m < k && shifted(p, m) == c
}

/// The Moore offsets reach exactly the neighbours, each from one offset.
proof fn lemma_shifted_neighbour(p: (int, int), q: (int, int))
    ensures
        is_neighbour(p, q) <==> among_first(p, q, 8),
        forall|m1: int, m2: int|
            0 <= m1 < 8 && 0 <= m2 < 8 && shifted(p, m1) == q && shifted(p, m2) == q ==> m1 == m2,
{
    if is_neighbour(p, q) {
        let m: int = if q.0 == p.0 - 1 {
            if q.1 == p.1 - 1 {
                0
            } else if q.1 == p.1 {
                1
            } else {
                2
            }
        } else if q.0 == p.0 {
            if q.1 == p.1 - 1 {
                3
            } else {
                4
            }
        } else {
            if q.1 == p.1 - 1 {
                5
            } else if q.1 == p.1 {
                6
            } else {
                7
            }
        };
        assert(shifted(p, m) == q);
    }
}

proof fn lemma_alive_bound(s: Set<(int, int)>, p: (int, int), k: int)
    requires
        0 <= k,
    ensures
        0 <= neighbours_alive(s, p, k) <= k,
    decreases k,
{
    if k > 0 {
        lemma_alive_bound(s, p, k - 1);
    }
}

/// Adding a cell `c` to a set raises the count of `p` by one exactly when `c`
/// is among the neighbours counted.
proof fn lemma_alive_insert(s: Set<(int, int)>, c: (int, int), p: (int, int), k: int)
    requires
        !s.contains(c),
        0 <= k <= 8,
    ensures
        neighbours_alive(s.insert(c), p, k) == neighbours_alive(s, p, k) + if among_first(p, c, k) {
            1int
        } else {
            0
        },
    decreases k,
{
    if k > 0 {
        lemma_alive_insert(s, c, p, k - 1);
        lemma_shifted_neighbour(p, c);
        if shifted(p, k - 1) == c {
            assert(among_first(p, c, k));
            assert(!among_first(p, c, k - 1));
        } else if among_first(p, c, k) {
            let m = choose|m: int| 0 <= m < k && shifted(p, m) == c;
            assert(among_first(p, c, k - 1));
        } else {
            assert(!among_first(p, c, k - 1));
        }
    }
}

/// How many entries of `l` are in `s`.
spec fn alive_in(s: Set<(int, int)>, l: Seq<(int, int)>) -> int
    decreases l.len(),
{
    if l.len() == 0 {
        0
    } else {
        alive_in(s, l.drop_last()) + if s.contains(l.last()) {
            1int
        } else {
            0
        }
    }
}

/// Counting along the list of in-range neighbours gives the neighbour count
/// of a set that lies in range.
proof fn lemma_alive_in_list(s: Set<(int, int)>, p: (int, int), k: int)
    requires
        forall|q: (int, int)| #[trigger] s.contains(q) ==> in_range(q),
    ensures
        alive_in(s, neighbour_list(p, k)) == neighbours_alive(s, p, k),
    decreases k,
{
    if k > 0 {
        lemma_alive_in_list(s, p, k - 1);
        let q = shifted(p, k - 1);
        if in_range(q) {
            assert(neighbour_list(p, k).drop_last() =~= neighbour_list(p, k - 1));
        }
    }
}

/// The dead coordinates of `s` with exactly three live neighbours.
pub open spec fn births(s: Set<(int, int)>) -> Set<(int, int)> {
    Set::new(|p: (int, int)| !s.contains(p) && live_neighbour_count(s, p) == 3)
}

/// The live coordinates of `s` with two or three live neighbours.
pub open spec fn survivals(s: Set<(int, int)>) -> Set<(int, int)> {
    Set::new(
        |p: (int, int)|
            s.contains(p) && (live_neighbour_count(s, p) == 2 || live_neighbour_count(s, p) == 3),
    )
}

/// A coordinate with a live neighbour has one at some Moore offset.
proof fn lemma_alive_witness(s: Set<(int, int)>, p: (int, int), k: int)
    requires
        neighbours_alive(s, p, k) > 0,
    ensures
        exists|m: int| 0 <= m < k && s.contains(shifted(p, m)),
    decreases k,
{
    if k > 0 && !s.contains(shifted(p, k - 1)) {
        lemma_alive_witness(s, p, k - 1);
    }
}

/// For a finite live set none of whose cells lies on the edge of the `i32`
/// range, the next generation is exactly the dead coordinates with three live
/// neighbours together with the live coordinates with two or three; no
/// coordinate is in both parts.
pub proof fn lemma_next_generation_is_births_and_survivals(s: Set<(int, int)>)
    requires
        s.finite(),
        forall|q: (int, int)| #[trigger] s.contains(q) ==> in_interior(q),
    ensures
        next_generation(s) == births(s).union(survivals(s)),
        births(s).disjoint(survivals(s)),
{
    assert forall|p: (int, int)| #[trigger] births(s).contains(p) implies in_range(p) by {
        lemma_alive_witness(s, p, 8);
        let m = choose|m: int| 0 <= m < 8 && s.contains(shifted(p, m));
        assert(in_interior(shifted(p, m)));
    }
    assert(next_generation(s) =~= births(s).union(survivals(s)));
}

/// The empty live set stays empty.
pub proof fn lemma_empty_is_fixed_point()
    ensures
        next_generation(Set::<(int, int)>::empty()) == Set::<(int, int)>::empty(),
{
    assert forall|p: (int, int)| !#[trigger] next_generation(Set::<(int, int)>::empty()).contains(p) by {
        reveal_with_fuel(neighbours_alive, 9);
    }
    assert(next_generation(Set::<(int, int)>::empty()) =~= Set::<(int, int)>::empty());
}

/// The integer that identifies a coordinate pair in the hash-backed index:
/// `x` in the high 32 bits and `y`, offset to be non-negative, in the low 32.
pub open spec fn cell_key(p: (int, int)) -> int {
    p.0 * 4294967296 + p.1 + 2147483648
}

/// Distinct coordinate pairs in range have distinct keys.
pub proof fn lemma_key_injective(p: (int, int), q: (int, int))
    requires
        in_range(p),
        in_range(q),
        cell_key(p) == cell_key(q),
    ensures
        p == q,
{
}

fn key_of(x: i32, y: i32) -> (k: i64)
    ensures
        k as int == cell_key((x as int, y as int)),
{
    x as i64 * 4294967296 + (y as i64 + 2147483648)
}

/// The coordinates of the first `i` cells of `cells`.
spec fn cells_before(cells: Seq<Cell>, i: int) -> Set<(int, int)> {
    Set::new(|q: (int, int)| exists|j: int| 0 <= j < i && cells[j]@ == q)
}

/// 1 when `p` is among the first `t` entries of `l`, else 0.
spec fn seen(l: Seq<Cell>, t: int, p: (int, int)) -> int {
    if exists|u: int| 0 <= u < t && l[u]@ == p {
        1
    } else {
        0
    }
}

/// The tally of dead coordinates after the live cells of `counted` have been
/// visited: `dead` lists each dead coordinate that has a live neighbour in
/// `counted`, and `counts` maps its key to the number of such neighbours.
spec fn tally_ok(
    s: Set<(int, int)>,
    counted: Set<(int, int)>,
    counts: Map<i64, u8>,
    dead: Seq<Cell>,
) -> bool {
    &&& forall|j: int|
        0 <= j < dead.len() ==> !s.contains(#[trigger] dead[j]@) && counts.contains_key(
            cell_key(dead[j]@) as i64,
        ) && counts[cell_key(dead[j]@) as i64] as int == live_neighbour_count(counted, dead[j]@)
    &&& forall|k: i64|
        #[trigger] counts.contains_key(k) ==> exists|j: int|
            0 <= j < dead.len() && cell_key(dead[j]@) == k as int
    &&& forall|p: (int, int)|
        in_range(p) && !s.contains(p) && #[trigger] live_neighbour_count(counted, p) > 0
            ==> exists|j: int| 0 <= j < dead.len() && dead[j]@ == p
}

/// The state of the Game of Life: the set of live cells.
///
/// The cells are kept in a vector, which gives a stable order for display,
/// and their keys in a hash set, which answers membership in constant time.
pub struct Game {
    live_cells: Vec<Cell>,
    index: HashSet<i64>,
}

impl View for Game {
    type V = Set<(int, int)>;

    /// The set of live coordinate pairs.
    closed spec fn view(&self) -> Set<(int, int)> {
        self.positions().to_set()
    }
}

impl Game {
    spec fn positions(&self) -> Seq<(int, int)> {
        self.live_cells@.map_values(|c: Cell| c@)
    }

    /// The live cells are distinct and the index holds exactly their keys.
    pub closed spec fn wf(&self) -> bool {
        &&& self.positions().no_duplicates()
        &&& forall|k: i64|
            #[trigger] self.index@.contains(k) <==> exists|i: int|
                0 <= i < self.live_cells@.len() && cell_key(self.live_cells@[i]@) == k as int
    }

    proof fn lemma_view_contains(&self, p: (int, int))
        ensures
            self@.contains(p) <==> exists|i: int|
                0 <= i < self.live_cells@.len() && self.live_cells@[i]@ == p,
    {
        if self@.contains(p) {
            let i = choose|i: int| 0 <= i < self.positions().len() && self.positions()[i] == p;
            assert(self.live_cells@[i]@ == p);
        }
        if exists|i: int| 0 <= i < self.live_cells@.len() && self.live_cells@[i]@ == p {
            let i = choose|i: int| 0 <= i < self.live_cells@.len() && self.live_cells@[i]@ == p;
            assert(self.positions()[i] == p);
        }
    }

    /// The view is a finite set with one element per stored cell.
    proof fn lemma_view_len(&self)
        requires
            self.wf(),
        ensures
            self@.finite(),
            self@.len() == self.live_cells@.len(),
    {
        self.positions().unique_seq_to_set();
    }

    /// Whether the cell at `(x, y)` is in the index.
    fn has(&self, x: i32, y: i32) -> (r: bool)
        requires
            self.wf(),
        ensures
            r == self@.contains((x as int, y as int)),
    {
        let k = key_of(x, y);
        let r = self.index.contains(&k);
        proof {
            let p = (x as int, y as int);
            self.lemma_view_contains(p);
            if r {
                let i = choose|i: int|
                    0 <= i < self.live_cells@.len() && cell_key(self.live_cells@[i]@) == k as int;
                lemma_key_injective(self.live_cells@[i]@, p);
            } else if self@.contains(p) {
                let i = choose|i: int| 0 <= i < self.live_cells@.len() && self.live_cells@[i]@ == p;
                assert(self.index@.contains(k));
            }
        }
        r
    }

    /// Adds the cell at `(x, y)` unless it is already live.
    fn insert(&mut self, x: i32, y: i32)
        requires
            old(self).wf(),
        ensures
            final(self).wf(),
            final(self)@ == old(self)@.insert((x as int, y as int)),
    {
        let k = key_of(x, y);
        let fresh = self.index.insert(k);
        let ghost p = (x as int, y as int);
        if fresh {
            let ghost cells0 = self.live_cells@;
            self.live_cells.push(Cell::new(x, y));
            proof {
                assert(self.live_cells@[cells0.len() as int]@ == p);
                assert(forall|i: int| 0 <= i < cells0.len() ==> self.live_cells@[i] == cells0[i]);
                assert(!old(self)@.contains(p)) by {
                    old(self).lemma_view_contains(p);
                    if old(self)@.contains(p) {
                        let i = choose|i: int| 0 <= i < cells0.len() && cells0[i]@ == p;
                        assert(old(self).index@.contains(k));
                    }
                }
                assert forall|k2: i64| #[trigger] self.index@.contains(k2) <==> exists|i: int|
                    0 <= i < self.live_cells@.len() && cell_key(self.live_cells@[i]@)
                        == k2 as int by {
                    if old(self).index@.contains(k2) {
                        let i = choose|i: int|
                            0 <= i < cells0.len() && cell_key(cells0[i]@) == k2 as int;
                        assert(self.live_cells@[i] == cells0[i]);
                    }
                    if exists|i: int|
                        0 <= i < self.live_cells@.len() && cell_key(self.live_cells@[i]@)
                            == k2 as int {
                        let i = choose|i: int|
                            0 <= i < self.live_cells@.len() && cell_key(self.live_cells@[i]@)
                                == k2 as int;
                        if i < cells0.len() {
                            assert(self.live_cells@[i] == cells0[i]);
                        }
                    }
                }
                assert(self.positions() =~= old(self).positions().push(p));
                assert forall|q: (int, int)| self@.contains(q) <==> old(self)@.insert(p).contains(q) by {
                    self.lemma_view_contains(q);
                    old(self).lemma_view_contains(q);
                }
                assert(self@ =~= old(self)@.insert(p));
            }
        } else {
            proof {
                old(self).lemma_view_contains(p);
                let i = choose|i: int|
                    0 <= i < self.live_cells@.len() && cell_key(self.live_cells@[i]@) == k as int;
                lemma_key_injective(self.live_cells@[i]@, p);
                assert(self.index@ =~= old(self).index@);
                assert(self@.contains(p));
                assert(self@ =~= old(self)@.insert(p));
            }
        }
    }

    /// Creates an empty game.
    fn empty() -> (r: Game)
        ensures
            r.wf(),
            r@ == Set::<(int, int)>::empty(),
    {
        let r = Game { live_cells: Vec::new(), index: HashSet::new() };
        assert(r@ =~= Set::<(int, int)>::empty());
        r
    }

    /// Creates a game whose live cells are the given coordinates; repeated
    /// coordinates count once.
    pub fn new_with_seed(seed: Vec<(i32, i32)>) -> (r: Game)
        ensures
            r.wf(),
            forall|p: (int, int)|
                #[trigger] r@.contains(p) <==> exists|i: int|
                    0 <= i < seed@.len() && (seed@[i].0 as int, seed@[i].1 as int) == p,
    {
        let mut game = Game::empty();
        let mut i: usize = 0;
        while i < seed.len()
            invariant
                i <= seed@.len(),
                game.wf(),
                forall|p: (int, int)|
                    #[trigger] game@.contains(p) <==> exists|j: int|
                        0 <= j < i && (seed@[j].0 as int, seed@[j].1 as int) == p,
            decreases seed@.len() - i,
        {
            let (x, y) = seed[i];
            game.insert(x, y);
            proof {
                assert forall|p: (int, int)| #[trigger] game@.contains(p) <==> exists|j: int|
                    0 <= j < i + 1 && (seed@[j].0 as int, seed@[j].1 as int) == p by {
                    if p == (x as int, y as int) {
                        assert((seed@[i as int].0 as int, seed@[i as int].1 as int) == p);
                    }
                }
            }
            i = i + 1;
        }
        game
    }

    /// Creates a game seeded with a vertical line of three cells at
    /// `(1, 1)`, `(1, 2)` and `(1, 3)`.
    pub fn new() -> (r: Game)
        ensures
            r.wf(),
            r@ == set![(1int, 3int), (1int, 2int), (1int, 1int)],
    {
        let mut game = Game::empty();
        game.insert(1, 3);
        game.insert(1, 2);
        game.insert(1, 1);
        assert(game@ =~= set![(1int, 3int), (1int, 2int), (1int, 1int)]);
        game
    }

    /// Whether the cell at `(x, y)` is alive.
    pub fn is_cell_alive(&self, x: i32, y: i32) -> (r: bool)
        requires
            self.wf(),
        ensures
            r == self@.contains((x as int, y as int)),
    {
        self.has(x, y)
    }

    /// Whether `cell` is alive.
    pub fn contains(&self, cell: &Cell) -> (r: bool)
        requires
            self.wf(),
        ensures
            r == self@.contains(cell@),
    {
        let (x, y) = cell.position();
        self.has(x, y)
    }

    /// The number of live cells.
    pub fn live_cells_amount(&self) -> (r: usize)
        requires
            self.wf(),
        ensures
            self@.finite(),
            r == self@.len(),
    {
        proof {
            self.lemma_view_len();
        }
        self.live_cells.len()
    }

    /// Makes the cell at `(x, y)` alive; nothing changes if it already is.
    pub fn add_cell(&mut self, x: i32, y: i32)
        requires
            old(self).wf(),
        ensures
            final(self).wf(),
            final(self)@ == old(self)@.insert((x as int, y as int)),
    {
        self.insert(x, y);
    }

    /// Makes the cell at `(x, y)` dead; nothing changes if it already is.
    #[verifier::rlimit(40)]
    pub fn remove_cell(&mut self, x: i32, y: i32)
        requires
            old(self).wf(),
        ensures
            final(self).wf(),
            final(self)@ == old(self)@.remove((x as int, y as int)),
    {
        let ghost p = (x as int, y as int);
        let ghost cells0 = self.live_cells@;
        let mut kept: Vec<Cell> = Vec::new();
        let mut i: usize = 0;
        while i < self.live_cells.len()
            invariant
                i <= cells0.len(),
                p == (x as int, y as int),
                self.live_cells@ == cells0,
                self.wf(),
                forall|j: int|
                    0 <= j < kept@.len() ==> #[trigger] kept@[j]@ != p && exists|m: int|
                        0 <= m < i && cells0[m]@ == kept@[j]@,
                forall|m: int|
                    0 <= m < i && #[trigger] cells0[m]@ != p ==> exists|j: int|
                        0 <= j < kept@.len() && kept@[j]@ == cells0[m]@,
                forall|a: int, b: int|
                    0 <= a < b < kept@.len() ==> #[trigger] kept@[a]@ != #[trigger] kept@[b]@,
            decreases cells0.len() - i,
        {
            let c = self.live_cells[i];
            let pos = c.position();
            let cx = pos.0;
            let cy = pos.1;
            assert((cx as int, cy as int) == c@);
            let ghost kept0 = kept@;
            if cx != x || cy != y {
                kept.push(c);
                proof {
                    assert(self.positions()[i as int] == c@);
                    assert forall|a: int, b: int| 0 <= a < b < kept@.len() implies #[trigger] kept@[a]@
                        != #[trigger] kept@[b]@ by {
                        if b == kept0.len() {
                            assert(kept0[a]@ == kept@[a]@);
                            let m = choose|m: int| 0 <= m < i && cells0[m]@ == kept0[a]@;
                            assert(self.positions()[m] == cells0[m]@);
                        }
                    }
                }
            }
            proof {
                assert(c == cells0[i as int]);
                if cx != x || cy != y {
                    assert(kept@[kept0.len() as int] == c);
                    assert(c@ != p);
                } else {
                    assert(kept@ == kept0);
                    assert(c@ == p);
                }
                assert forall|j: int| 0 <= j < kept@.len() implies #[trigger] kept@[j]@ != p
                    && exists|m: int| 0 <= m < i + 1 && cells0[m]@ == kept@[j]@ by {
                    if j < kept0.len() {
                        assert(kept0[j] == kept@[j]);
                        assert(kept0[j]@ != p);
                        let m = choose|m: int| 0 <= m < i && cells0[m]@ == kept0[j]@;
                        assert(cells0[m]@ == kept@[j]@);
                    } else {
                        assert(cells0[i as int]@ == kept@[j]@);
                    }
                }
                assert forall|m: int| 0 <= m < i + 1 && #[trigger] cells0[m]@ != p implies exists|j: int|
                    0 <= j < kept@.len() && kept@[j]@ == cells0[m]@ by {
                    if m < i {
                        let j = choose|j: int| 0 <= j < kept0.len() && kept0[j]@ == cells0[m]@;
                        assert(kept@[j] == kept0[j]);
                    } else {
                        assert(kept@[kept0.len() as int]@ == cells0[m]@);
                    }
                }
            }
            i = i + 1;
        }
        let k = key_of(x, y);
        self.index.remove(&k);
        self.live_cells = kept;
        proof {
            assert forall|q: (int, int)| self@.contains(q) <==> old(self)@.remove(p).contains(q) by {
                self.lemma_view_contains(q);
                old(self).lemma_view_contains(q);
                if self@.contains(q) {
                    let j = choose|j: int| 0 <= j < kept@.len() && kept@[j]@ == q;
                    assert(kept@[j]@ != p);
                }
                if old(self)@.remove(p).contains(q) {
                    let m = choose|m: int| 0 <= m < cells0.len() && cells0[m]@ == q;
                    assert(cells0[m]@ != p);
                }
            }
            assert(self@ =~= old(self)@.remove(p));
            assert forall|a: int, b: int| 0 <= a < self.positions().len() && 0 <= b < self.positions().len() && a != b
                implies self.positions()[a] != self.positions()[b] by {
                if a < b {
                    assert(self.live_cells@[a]@ != self.live_cells@[b]@);
                } else {
                    assert(self.live_cells@[b]@ != self.live_cells@[a]@);
                }
            }
            assert forall|k2: i64| #[trigger] self.index@.contains(k2) <==> exists|i: int|
                0 <= i < self.live_cells@.len() && cell_key(self.live_cells@[i]@) == k2 as int by {
                if self.index@.contains(k2) {
                    let m = choose|m: int| 0 <= m < cells0.len() && cell_key(cells0[m]@) == k2 as int;
                    let q = cells0[m]@;
                    assert(q != p);
                    assert(cells0[m]@ != p);
                    let j = choose|j: int| 0 <= j < self.live_cells@.len() && self.live_cells@[j]@ == q;
                    assert(cell_key(self.live_cells@[j]@) == k2 as int);
                }
                if exists|i: int|
                    0 <= i < self.live_cells@.len() && cell_key(self.live_cells@[i]@) == k2 as int {
                    let j = choose|j: int|
                        0 <= j < self.live_cells@.len() && cell_key(self.live_cells@[j]@) == k2 as int;
                    let q = self.live_cells@[j]@;
                    assert(kept@[j]@ != p);
                    let m = choose|m: int| 0 <= m < cells0.len() && cells0[m]@ == q;
                    assert(old(self).index@.contains(k2));
                    if k2 == k {
                        lemma_key_injective(q, p);
                    }
                }
            }
        }
    }

    /// The coordinates of the live cells, each once, in the stored order.
    pub fn live_cells_positions(&self) -> (r: Vec<(i32, i32)>)
        requires
            self.wf(),
        ensures
            r@.len() == self@.len(),
            forall|p: (int, int)|
                self@.contains(p) <==> exists|j: int|
                    0 <= j < r@.len() && (r@[j].0 as int, r@[j].1 as int) == p,
            forall|a: int, b: int| 0 <= a < b < r@.len() ==> #[trigger] r@[a] != #[trigger] r@[b],
    {
        let mut r: Vec<(i32, i32)> = Vec::new();
        let mut i: usize = 0;
        while i < self.live_cells.len()
            invariant
                i <= self.live_cells@.len(),
                r@.len() == i,
                forall|j: int|
                    0 <= j < i ==> (#[trigger] r@[j].0 as int, r@[j].1 as int)
                        == self.live_cells@[j]@,
            decreases self.live_cells@.len() - i,
        {
            r.push(self.live_cells[i].position());
            i = i + 1;
        }
        proof {
            self.lemma_view_len();
            assert forall|p: (int, int)| self@.contains(p) <==> exists|j: int|
                0 <= j < r@.len() && (r@[j].0 as int, r@[j].1 as int) == p by {
                self.lemma_view_contains(p);
                if self@.contains(p) {
                    let j = choose|j: int| 0 <= j < self.live_cells@.len() && self.live_cells@[j]@ == p;
                    assert((r@[j].0 as int, r@[j].1 as int) == p);
                }
            }
            assert forall|a: int, b: int| 0 <= a < b < r@.len() implies #[trigger] r@[a] != #[trigger] r@[b] by {
                assert(self.positions()[a] != self.positions()[b]);
                assert((r@[a].0 as int, r@[a].1 as int) == self.live_cells@[a]@);
                assert((r@[b].0 as int, r@[b].1 as int) == self.live_cells@[b]@);
            }
        }
        r
    }

    /// Visits the neighbours of the live cell `c`: counts those that are
    /// alive, and adds one to the tally of each that is dead.
    #[verifier::rlimit(60)]
    fn tally_neighbours(
        &self,
        c: Cell,
        dead_counts: &mut HashMap<i64, u8>,
        dead_cells: &mut Vec<Cell>,
        Ghost(counted): Ghost<Set<(int, int)>>,
    ) -> (live: u8)
        requires
            self.wf(),
            self@.contains(c@),
            !counted.contains(c@),
            tally_ok(self@, counted, old(dead_counts)@, old(dead_cells)@),
        ensures
            tally_ok(self@, counted.insert(c@), final(dead_counts)@, final(dead_cells)@),
            live as int == live_neighbour_count(self@, c@),
    {
        let ghost s = self@;
        let nb = c.neighbour_positions();
        let ghost l = neighbour_list(c@, 8);
        let mut live: u8 = 0;
        let mut t: usize = 0;
        while t < nb.len()
            invariant
                self.wf(),
                s == self@,
                nb@.len() <= 8,
                t <= nb@.len(),
                nb@.map_values(|n: Cell| n@) == l,
                forall|a: int, b: int| 0 <= a < b < nb@.len() ==> #[trigger] nb@[a]@ != #[trigger] nb@[b]@,
                live as int == alive_in(s, l.take(t as int)),
                live <= t,
                forall|j: int|
                    0 <= j < dead_cells@.len() ==> !s.contains(#[trigger] dead_cells@[j]@)
                        && dead_counts@.contains_key(cell_key(dead_cells@[j]@) as i64)
                        && dead_counts@[cell_key(dead_cells@[j]@) as i64] as int
                        == live_neighbour_count(counted, dead_cells@[j]@) + seen(nb@, t as int, dead_cells@[j]@),
                forall|k: i64|
                    #[trigger] dead_counts@.contains_key(k) ==> exists|j: int|
                        0 <= j < dead_cells@.len() && cell_key(dead_cells@[j]@) == k as int,
                forall|p: (int, int)|
                    in_range(p) && !s.contains(p) && live_neighbour_count(counted, p) + #[trigger] seen(nb@, t as int, p) > 0
                        ==> exists|j: int| 0 <= j < dead_cells@.len() && dead_cells@[j]@ == p,
            decreases nb@.len() - t,
        {
            let n = nb[t];
            let pos = n.position();
            let ghost q = n@;
            let ghost cells0 = dead_cells@;
            let ghost counts0 = dead_counts@;
            proof {
                assert(nb@.map_values(|n: Cell| n@)[t as int] == q);
                assert(l.take(t + 1).drop_last() =~= l.take(t as int));
                assert(forall|u: int| 0 <= u < t ==> nb@[u]@ != q);
                lemma_alive_bound(counted, q, 8);
            }
            if self.has(pos.0, pos.1) {
                live = live + 1;
                proof {
                    assert forall|p: (int, int)| p != q implies seen(nb@, t + 1, p) == seen(nb@, t as int, p) by {
                        if exists|u: int| 0 <= u < t + 1 && nb@[u]@ == p {
                            let u = choose|u: int| 0 <= u < t + 1 && nb@[u]@ == p;
                            assert(u < t);
                        }
                    }
                    assert forall|j: int| 0 <= j < dead_cells@.len() implies #[trigger] dead_cells@[j]@ != q by {
                        assert(!s.contains(dead_cells@[j]@));
                    }
                }
            } else {
                let k = key_of(pos.0, pos.1);
                let cur: Option<u8> = match dead_counts.get(&k) {
                    Some(v) => Some(*v),
                    None => None,
                };
                proof {
                    assert(seen(nb@, t as int, q) == 0);
                }
                match cur {
                    Some(v) => {
                        proof {
                            let j = choose|j: int| 0 <= j < cells0.len() && cell_key(cells0[j]@) == k as int;
                            lemma_key_injective(cells0[j]@, q);
                            assert(cells0[j]@ == q);
                        }
                        dead_counts.insert(k, v + 1);
                    },
                    None => {
                        proof {
                            assert(live_neighbour_count(counted, q) + seen(nb@, t as int, q) == 0) by {
                                if live_neighbour_count(counted, q) + seen(nb@, t as int, q) > 0 {
                                    let j = choose|j: int| 0 <= j < cells0.len() && cells0[j]@ == q;
                                    assert(counts0.contains_key(cell_key(cells0[j]@) as i64));
                                }
                            }
                        }
                        dead_counts.insert(k, 1);
                        dead_cells.push(n);
                    },
                }
                proof {
                    assert forall|p: (int, int)| p != q implies seen(nb@, t + 1, p) == seen(nb@, t as int, p) by {
                        if exists|u: int| 0 <= u < t + 1 && nb@[u]@ == p {
                            let u = choose|u: int| 0 <= u < t + 1 && nb@[u]@ == p;
                            assert(u < t);
                        }
                    }
                    assert(seen(nb@, t + 1, q) == 1);
                    assert forall|j: int| 0 <= j < dead_cells@.len() implies !s.contains(#[trigger] dead_cells@[j]@)
                        && dead_counts@.contains_key(cell_key(dead_cells@[j]@) as i64)
                        && dead_counts@[cell_key(dead_cells@[j]@) as i64] as int
                        == live_neighbour_count(counted, dead_cells@[j]@) + seen(nb@, t + 1, dead_cells@[j]@) by {
                        let d = dead_cells@[j]@;
                        if j < cells0.len() {
                            assert(cells0[j] == dead_cells@[j]);
                            if d != q {
                                if cell_key(d) == k as int {
                                    lemma_key_injective(d, q);
                                }
                            }
                        }
                    }
                    assert forall|k2: i64| #[trigger] dead_counts@.contains_key(k2) implies exists|j: int|
                        0 <= j < dead_cells@.len() && cell_key(dead_cells@[j]@) == k2 as int by {
                        if k2 == k {
                            if counts0.contains_key(k) {
                                let j = choose|j: int| 0 <= j < cells0.len() && cell_key(cells0[j]@) == k as int;
                                assert(dead_cells@[j] == cells0[j]);
                            } else {
                                assert(dead_cells@[cells0.len() as int] == n);
                            }
                        } else {
                            assert(counts0.contains_key(k2));
                            let j = choose|j: int| 0 <= j < cells0.len() && cell_key(cells0[j]@) == k2 as int;
                            assert(dead_cells@[j] == cells0[j]);
                        }
                    }
                }
            }
            proof {
                assert forall|p: (int, int)|
                    in_range(p) && !s.contains(p) && live_neighbour_count(counted, p) + #[trigger] seen(nb@, t + 1, p) > 0
                        implies exists|j: int| 0 <= j < dead_cells@.len() && dead_cells@[j]@ == p by {
                    if p != q {
                        assert(seen(nb@, t + 1, p) == seen(nb@, t as int, p));
                        let j = choose|j: int| 0 <= j < cells0.len() && cells0[j]@ == p;
                        assert(dead_cells@[j] == cells0[j]);
                    } else {
                        let k = cell_key(q) as i64;
                        assert(dead_counts@.contains_key(k));
                        let j = choose|j: int| 0 <= j < dead_cells@.len() && cell_key(dead_cells@[j]@) == k as int;
                        lemma_key_injective(dead_cells@[j]@, q);
                    }
                }
            }
            t = t + 1;
        }
        proof {
            assert(l.take(nb@.len() as int) =~= l);
            lemma_alive_in_list(s, c@, 8);
            let after = counted.insert(c@);
            assert forall|p: (int, int)| in_range(p) implies #[trigger] live_neighbour_count(after, p)
                == live_neighbour_count(counted, p) + seen(nb@, nb@.len() as int, p) by {
                lemma_alive_insert(counted, c@, p, 8);
                lemma_shifted_neighbour(p, c@);
                if exists|u: int| 0 <= u < nb@.len() && nb@[u]@ == p {
                    let u = choose|u: int| 0 <= u < nb@.len() && nb@[u]@ == p;
                    assert(exists|j: int| 0 <= j < nb@.len() && nb@[j]@ == p);
                }
                if is_neighbour(c@, p) {
                    assert(exists|j: int| 0 <= j < nb@.len() && nb@[j]@ == p);
                }
            }
        }
        live
    }

    /// The next generation of live cells: dead cells with exactly three live
    /// neighbours, and live cells with two or three.
    #[verifier::rlimit(60)]
    fn new_live_cells(&self) -> (r: Vec<Cell>)
        requires
            self.wf(),
        ensures
            forall|p: (int, int)|
                #[trigger] next_generation(self@).contains(p) <==> exists|j: int|
                    0 <= j < r@.len() && r@[j]@ == p,
    {
        let ghost s = self@;
        let ghost cells = self.live_cells@;
        let mut dead_counts: HashMap<i64, u8> = HashMap::new();
        let mut dead_cells: Vec<Cell> = Vec::new();
        let mut survivors: Vec<Cell> = Vec::new();
        proof {
            assert(cells_before(cells, 0) =~= Set::<(int, int)>::empty());
            assert forall|p: (int, int)| #[trigger] live_neighbour_count(Set::<(int, int)>::empty(), p) == 0 by {
                assert(neighbours_alive(Set::<(int, int)>::empty(), p, 8) == 0) by {
                    reveal_with_fuel(neighbours_alive, 9);
                }
            }
        }
        let mut i: usize = 0;
        while i < self.live_cells.len()
            invariant
                self.wf(),
                s == self@,
                cells == self.live_cells@,
                i <= cells.len(),
                tally_ok(s, cells_before(cells, i as int), dead_counts@, dead_cells@),
                forall|j: int|
                    0 <= j < survivors@.len() ==> s.contains(#[trigger] survivors@[j]@) && lives_next(
                        s,
                        survivors@[j]@,
                    ),
                forall|m: int|
                    0 <= m < i && lives_next(s, #[trigger] cells[m]@) ==> exists|j: int|
                        0 <= j < survivors@.len() && survivors@[j]@ == cells[m]@,
            decreases cells.len() - i,
        {
            let c = self.live_cells[i];
            proof {
                self.lemma_view_contains(c@);
                assert(!cells_before(cells, i as int).contains(c@)) by {
                    if cells_before(cells, i as int).contains(c@) {
                        let j = choose|j: int| 0 <= j < i && cells[j]@ == c@;
                        assert(self.positions()[j] == self.positions()[i as int]);
                    }
                }
                assert(cells_before(cells, i + 1) =~= cells_before(cells, i as int).insert(c@));
            }
            let live = self.tally_neighbours(c, &mut dead_counts, &mut dead_cells, Ghost(cells_before(cells, i as int)));
            let ghost surv0 = survivors@;
            if live == 2 || live == 3 {
                survivors.push(c);
            }
            proof {
                assert forall|m: int|
                    0 <= m < i + 1 && lives_next(s, #[trigger] cells[m]@) implies exists|j: int|
                        0 <= j < survivors@.len() && survivors@[j]@ == cells[m]@ by {
                    if m < i {
                        let j = choose|j: int| 0 <= j < surv0.len() && surv0[j]@ == cells[m]@;
                        assert(survivors@[j] == surv0[j]);
                    } else {
                        assert(survivors@[surv0.len() as int] == c);
                    }
                }
            }
            i = i + 1;
        }
        proof {
            assert forall|q: (int, int)| cells_before(cells, cells.len() as int).contains(q) <==> s.contains(q) by {
                self.lemma_view_contains(q);
            }
            assert(cells_before(cells, cells.len() as int) =~= s);
        }
        let mut r: Vec<Cell> = Vec::new();
        let mut j: usize = 0;
        while j < dead_cells.len()
            invariant
                self.wf(),
                s == self@,
                j <= dead_cells@.len(),
                tally_ok(s, s, dead_counts@, dead_cells@),
                forall|u: int| 0 <= u < r@.len() ==> next_generation(s).contains(#[trigger] r@[u]@),
                forall|m: int|
                    0 <= m < j && live_neighbour_count(s, #[trigger] dead_cells@[m]@) == 3 ==> exists|u: int|
                        0 <= u < r@.len() && r@[u]@ == dead_cells@[m]@,
            decreases dead_cells@.len() - j,
        {
            let d = dead_cells[j];
            let pos = d.position();
            let k = key_of(pos.0, pos.1);
            let ghost r0 = r@;
            if let Some(v) = dead_counts.get(&k) {
                if *v == 3 {
                    r.push(d);
                }
            }
            proof {
                assert(next_generation(s).contains(d@) <==> live_neighbour_count(s, d@) == 3);
                assert forall|m: int|
                    0 <= m < j + 1 && live_neighbour_count(s, #[trigger] dead_cells@[m]@) == 3 implies exists|u: int|
                        0 <= u < r@.len() && r@[u]@ == dead_cells@[m]@ by {
                    if m < j {
                        let u = choose|u: int| 0 <= u < r0.len() && r0[u]@ == dead_cells@[m]@;
                        assert(r@[u] == r0[u]);
                    } else {
                        assert(r@[r0.len() as int] == d);
                    }
                }
            }
            j = j + 1;
        }
        let ghost r1 = r@;
        let mut j: usize = 0;
        while j < survivors.len()
            invariant
                j <= survivors@.len(),
                r@.len() == r1.len() + j,
                forall|u: int| 0 <= u < r1.len() ==> r@[u] == r1[u],
                forall|u: int| 0 <= u < j ==> r@[r1.len() + u] == survivors@[u],
            decreases survivors@.len() - j,
        {
            r.push(survivors[j]);
            j = j + 1;
        }
        proof {
            assert forall|p: (int, int)|
                #[trigger] next_generation(s).contains(p) <==> exists|u: int| 0 <= u < r@.len() && r@[u]@ == p by {
                if next_generation(s).contains(p) {
                    if s.contains(p) {
                        self.lemma_view_contains(p);
                        let m = choose|m: int| 0 <= m < cells.len() && cells[m]@ == p;
                        let j = choose|j: int| 0 <= j < survivors@.len() && survivors@[j]@ == cells[m]@;
                        assert(r@[r1.len() + j] == survivors@[j]);
                    } else {
                        assert(live_neighbour_count(s, p) > 0);
                        let m = choose|m: int| 0 <= m < dead_cells@.len() && dead_cells@[m]@ == p;
                        let u = choose|u: int| 0 <= u < r1.len() && r1[u]@ == dead_cells@[m]@;
                        assert(r@[u] == r1[u]);
                    }
                }
                if exists|u: int| 0 <= u < r@.len() && r@[u]@ == p {
                    let u = choose|u: int| 0 <= u < r@.len() && r@[u]@ == p;
                    if u < r1.len() {
                        assert(r@[u] == r1[u]);
                    } else {
                        assert(r@[u] == survivors@[u - r1.len()]);
                    }
                }
            }
        }
        r
    }

    /// Advances the game to the next generation: a dead cell with exactly
    /// three live neighbours becomes alive, a live cell with two or three
    /// stays alive, and every other cell is dead.
    pub fn update_game(&mut self)
        requires
            old(self).wf(),
        ensures
            final(self).wf(),
            final(self)@ == next_generation(old(self)@),
    {
        let cells = self.new_live_cells();
        let mut next = Game::empty();
        let mut i: usize = 0;
        while i < cells.len()
            invariant
                i <= cells@.len(),
                next.wf(),
                forall|p: (int, int)|
                    #[trigger] next@.contains(p) <==> exists|j: int| 0 <= j < i && cells@[j]@ == p,
            decreases cells@.len() - i,
        {
            let pos = cells[i].position();
            next.insert(pos.0, pos.1);
            proof {
                assert forall|p: (int, int)|
                    #[trigger] next@.contains(p) <==> exists|j: int| 0 <= j < i + 1 && cells@[j]@ == p by {
                    if p == cells@[i as int]@ {
                        assert(exists|j: int| 0 <= j < i + 1 && cells@[j]@ == p);
                    }
                }
            }
            i = i + 1;
        }
        proof {
            assert(next@ =~= next_generation(old(self)@));
        }
        *self = next;
    }

    /// Adding a dead cell and then removing it leaves the live set as it was.
    pub proof fn lemma_add_then_remove(&self, x: i32, y: i32)
        requires
            self.wf(),
            !self@.contains((x as int, y as int)),
        ensures
            self@.insert((x as int, y as int)).remove((x as int, y as int)) == self@,
    {
        assert(self@.insert((x as int, y as int)).remove((x as int, y as int)) =~= self@);
    }

    /// Right after `add_cell(x, y)` the cell at `(x, y)` is alive, and right
    /// after `remove_cell(x, y)` it is dead, whatever the state was.
    pub proof fn lemma_alive_after_edit(&self, x: i32, y: i32)
        requires
            self.wf(),
        ensures
            self@.insert((x as int, y as int)).contains((x as int, y as int)),
            !self@.remove((x as int, y as int)).contains((x as int, y as int)),
    {
    }

    /// The live set is finite.
    pub proof fn lemma_finite(&self)
        ensures
            self@.finite(),
    {
        vstd::seq_lib::seq_to_set_is_finite(self.positions());
    }
}

} // verus!
