use vstd::prelude::*;

verus! {

/// The eight offsets of the Moore neighbourhood, in a fixed order.
const NEIGHBOUR_OFFSETS: [(i32, i32); 8] = [
    (-1, -1),
    (-1, 0),
    (-1, 1),
    (0, -1),
    (0, 1),
    (1, -1),
    (1, 0),
    (1, 1),
];

/// The `k`-th Moore offset, for `k` in `0..8`, in the order of the table.
pub open spec fn neighbour_offset(k: int) -> (int, int) {
    if k == 0 {
        (-1, -1)
    } else if k == 1 {
        (-1, 0)
    } else if k == 2 {
        (-1, 1)
    } else if k == 3 {
        (0, -1)
    } else if k == 4 {
        (0, 1)
    } else if k == 5 {
        (1, -1)
    } else if k == 6 {
        (1, 0)
    } else {
        (1, 1)
    }
}

/// The executable offset table holds the Moore offsets.
spec fn offset_table_matches() -> bool {
    &&& NEIGHBOUR_OFFSETS@.len() == 8
    &&& forall|k: int|
        0 <= k < 8 ==> (#[trigger] NEIGHBOUR_OFFSETS@[k].0 as int, NEIGHBOUR_OFFSETS@[k].1 as int)
            == neighbour_offset(k)
}

proof fn lemma_offset_table()
    ensures
        offset_table_matches(),
{
    let t = seq![(-1i32, -1i32), (-1i32, 0i32), (-1i32, 1i32), (0i32, -1i32), (0i32, 1i32), (1i32, -1i32), (1i32, 0i32), (1i32, 1i32)];
    assert(NEIGHBOUR_OFFSETS@ =~= t);
}

/// A coordinate pair that a `Cell` can hold.
pub open spec fn in_range(p: (int, int)) -> bool {
    i32::MIN <= p.0 <= i32::MAX && i32::MIN <= p.1 <= i32::MAX
}

/// A coordinate pair all of whose neighbours a `Cell` can hold.
pub open spec fn in_interior(p: (int, int)) -> bool {
    i32::MIN < p.0 < i32::MAX && i32::MIN < p.1 < i32::MAX
}

/// `q` lies in the Moore neighbourhood of `p`: it differs from `p` and by at
/// most one in each coordinate.
pub open spec fn is_neighbour(p: (int, int), q: (int, int)) -> bool {
    &&& p != q
    &&& -1 <= q.0 - p.0 <= 1
    &&& -1 <= q.1 - p.1 <= 1
}

/// `p` moved by the `k`-th Moore offset.
pub open spec fn shifted(p: (int, int), k: int) -> (int, int) {
    (p.0 + neighbour_offset(k).0, p.1 + neighbour_offset(k).1)
}

/// The first `k` Moore neighbours of `p`, in the order of the offset table,
/// leaving out those outside the range of `i32`.
pub open spec fn neighbour_list(p: (int, int), k: int) -> Seq<(int, int)>
    decreases k,
{
    if k <= 0 {
        Seq::empty()
    } else if in_range(shifted(p, k - 1)) {
        neighbour_list(p, k - 1).push(shifted(p, k - 1))
    } else {
        neighbour_list(p, k - 1)
    }
}

/// A cell of the Game of Life: a pair of integer coordinates.
#[derive(Clone, Copy, PartialEq, Eq, Structural, Hash, Debug)]
pub struct Cell {
    x: i32,
    y: i32,
}

impl View for Cell {
    type V = (int, int);

    closed spec fn view(&self) -> (int, int) {
        (self.x as int, self.y as int)
    }
}

/// Every cell holds a coordinate pair in the range of `i32`.
pub broadcast proof fn lemma_cell_in_range(c: Cell)
    ensures
        in_range(#[trigger] c@),
{
}

impl Cell {
    /// Creates a cell with the given coordinates.
    pub fn new(x: i32, y: i32) -> (r: Cell)
        ensures
            r@ == (x as int, y as int),
    {
        Cell { x, y }
    }

    /// Returns the positions of the neighbours of this cell: the eight Moore
    /// neighbours in the order of the offset table, leaving out only those
    /// that would fall outside the range of `i32`.
    #[verifier::rlimit(40)]
    pub fn neighbour_positions(&self) -> (r: Vec<Cell>)
        ensures
            r@.len() <= 8,
            r@.map_values(|c: Cell| c@) == neighbour_list(self@, 8),
            forall|q: (int, int)|
                (exists|j: int| 0 <= j < r@.len() && #[trigger] r@[j]@ == q) <==> (in_range(q)
                    && is_neighbour(self@, q)),
            forall|i: int, j: int|
                0 <= i < j < r@.len() ==> #[trigger] r@[i]@ != #[trigger] r@[j]@,
            in_interior(self@) ==> r@.len() == 8 && forall|k: int|
                0 <= k < 8 ==> #[trigger] r@[k]@ == shifted(self@, k),
    {
        proof {
            lemma_offset_table();
        }
        let mut r: Vec<Cell> = Vec::new();
        let mut k: usize = 0;
        while k < 8
            invariant
                0 <= k <= 8,
                r@.len() <= k,
                offset_table_matches(),
                r@.map_values(|c: Cell| c@) =~= neighbour_list(self@, k as int),
                forall|j: int| 0 <= j < r@.len() ==> exists|m: int| 0 <= m < k && #[trigger] r@[j]@ == shifted(self@, m),
                forall|m: int| 0 <= m < k && in_range(#[trigger] shifted(self@, m)) ==> exists|j: int| 0 <= j < r@.len() && r@[j]@ == shifted(self@, m),
                forall|i: int, j: int| 0 <= i < j < r@.len() ==> #[trigger] r@[i]@ != #[trigger] r@[j]@,
                in_interior(self@) ==> r@.len() == k && forall|m: int| 0 <= m < k ==> #[trigger] r@[m]@ == shifted(self@, m),
            decreases 8 - k,
        {
            let (dx, dy) = NEIGHBOUR_OFFSETS[k];
            let nx = self.x as i64 + dx as i64;
            let ny = self.y as i64 + dy as i64;
            let ghost p = shifted(self@, k as int);
            let ghost r0 = r@;
            assert((nx as int, ny as int) == p);
            if i32::MIN as i64 <= nx && nx <= i32::MAX as i64 && i32::MIN as i64 <= ny && ny
                <= i32::MAX as i64 {
                r.push(Cell { x: nx as i32, y: ny as i32 });
                assert(r@[r0.len() as int]@ == p);
                assert(forall|j: int| 0 <= j < r0.len() ==> r@[j] == r0[j]);
                assert forall|m: int| 0 <= m < k && in_range(#[trigger] shifted(self@, m)) implies
                    exists|j: int| 0 <= j < r@.len() && r@[j]@ == shifted(self@, m) by {
                    let j = choose|j: int| 0 <= j < r0.len() && r0[j]@ == shifted(self@, m);
                    assert(r@[j]@ == shifted(self@, m));
                }
                assert forall|j: int| 0 <= j < r@.len() implies exists|m: int|
                    0 <= m < k + 1 && #[trigger] r@[j]@ == shifted(self@, m) by {
                    if j < r0.len() {
                        let m = choose|m: int| 0 <= m < k && r0[j]@ == shifted(self@, m);
                        assert(r@[j]@ == shifted(self@, m));
                    } else {
                        assert(r@[j]@ == shifted(self@, k as int));
                    }
                }
                assert forall|i: int, j: int| 0 <= i < j < r@.len() implies #[trigger] r@[i]@
                    != #[trigger] r@[j]@ by {
                    if j == r0.len() {
                        let m = choose|m: int| 0 <= m < k && r0[i]@ == shifted(self@, m);
                        assert(r@[i]@ == shifted(self@, m));
                    }
                }
            }
            k = k + 1;
        }
        assert forall|q: (int, int)| in_range(q) && is_neighbour(self@, q) implies
            exists|j: int| 0 <= j < r@.len() && #[trigger] r@[j]@ == q by {
            let m: int = if q.0 == self@.0 - 1 { if q.1 == self@.1 - 1 { 0 } else if q.1 == self@.1 { 1 } else { 2 } }
                else if q.0 == self@.0 { if q.1 == self@.1 - 1 { 3 } else { 4 } }
                else { if q.1 == self@.1 - 1 { 5 } else if q.1 == self@.1 { 6 } else { 7 } };
            assert(shifted(self@, m) == q);
        }
        r
    }

    /// Returns the position of the cell as a tuple.
    pub fn position(&self) -> (r: (i32, i32))
        ensures
            (r.0 as int, r.1 as int) == self@,
    {
        (self.x, self.y)
    }
}

} // verus!
