use vstd::prelude::*;
use vstd::string::StringSliceAdditionalSpecFns;
use crate::text::{lines, views, split_lines};

verus! {

/// A position in the manifold: row `i`, column `j`.
#[derive(Debug, Clone, Copy, PartialEq, Eq, Structural)]
pub struct Coord {
    pub i: usize,
    pub j: usize,
}

/// What a byte of the manifold's text stands for.
#[derive(Debug, Clone, Copy, PartialEq, Eq, Structural)]
pub enum CellType {
    Empty,
    Source,
    Splitter,
}

#[derive(Debug, Clone, Copy, PartialEq, Eq, Structural)]
pub struct Cell {
    pub is_splitter: bool,
    pub visited: bool,
}

pub open spec fn cell_type_of(b: u8) -> Option<CellType> {
    if b == 46u8 {
        Some(CellType::Empty)
    } else if b == 83u8 {
        Some(CellType::Source)
    } else if b == 94u8 {
        Some(CellType::Splitter)
    } else {
        None
    }
}

impl CellType {
    /// `.` is empty, `S` the source, `^` a splitter.
    pub fn from_byte(b: u8) -> (r: Option<CellType>)
        ensures
            r == cell_type_of(b),
    {
        if b == 46u8 {
            Some(CellType::Empty)
        } else if b == 83u8 {
            Some(CellType::Source)
        } else if b == 94u8 {
            Some(CellType::Splitter)
        } else {
            None
        }
    }
}

/// A rectangular grid of `m` rows of `n` cells, stored row after row.
pub struct Manifold {
    pub cells: Vec<Cell>,
    pub m: usize,
    pub n: usize,
}

/// A grid as a sequence of cells, row after row, with its dimensions.
pub struct GridView {
    pub cells: Seq<Cell>,
    pub m: int,
    pub n: int,
}

impl GridView {
    pub open spec fn wf(&self) -> bool {
        self.cells.len() == self.m * self.n && self.m >= 0 && self.n >= 0
    }

    pub open spec fn at(&self, i: int, j: int) -> Cell {
        self.cells[i * self.n + j]
    }
}

impl View for Manifold {
    type V = GridView;

    open spec fn view(&self) -> GridView {
        GridView { cells: self.cells@, m: self.m as int, n: self.n as int }
    }
}

proof fn lemma_index(m: int, n: int, i: int, j: int)
    requires
        0 <= i < m,
        0 <= j < n,
    ensures
        0 <= i * n + j < m * n,
        0 <= i * n <= i * n + j,
    {
    assert(i * n + j < m * n) by (nonlinear_arith)
        requires
            0 <= i < m,
            0 <= j < n,
    ;
    assert(0 <= i * n) by (nonlinear_arith)
        requires
            0 <= i,
            0 <= n,
    ;
}

proof fn lemma_index_distinct(n: int, i: int, j: int, a: int, b: int)
    requires
        0 <= j < n,
        0 <= b < n,
        i * n + j == a * n + b,
    ensures
        i == a && j == b,
{
    assert(i == a && j == b) by (nonlinear_arith)
        requires
            0 <= j < n,
            0 <= b < n,
            i * n + j == a * n + b,
    ;
}

/// The cell below `c`.
pub fn next(c: &Coord) -> (r: Coord)
    requires
        c.i < usize::MAX,
    ensures
        r == (Coord { i: (c.i + 1) as usize, j: c.j }),
{
    Coord { i: c.i + 1, j: c.j }
}

/// The cell below and to the left of `c`; its column wraps past zero to
/// the largest `usize`, which lies outside any grid.
pub fn nextl(c: &Coord) -> (r: Coord)
    requires
        c.i < usize::MAX,
    ensures
        r.i == c.i + 1,
        c.j > 0 ==> r.j == c.j - 1,
        c.j == 0 ==> r.j == usize::MAX,
{
    Coord { i: c.i + 1, j: if c.j == 0 { usize::MAX } else { c.j - 1 } }
}

/// The cell below and to the right of `c`.
pub fn nextr(c: &Coord) -> (r: Coord)
    requires
        c.i < usize::MAX,
        c.j < usize::MAX,
    ensures
        r == (Coord { i: (c.i + 1) as usize, j: (c.j + 1) as usize }),
{
    Coord { i: c.i + 1, j: c.j + 1 }
}

pub fn inside(c: &Coord, m: usize, n: usize) -> (r: bool)
    ensures
        r == (c.i < m && c.j < n),
{
    c.i < m && c.j < n
}

/// The number of beam paths from `(i, j)` to the bottom row: a beam moves
/// down one row at a time, and a splitter sends it both down-left and
/// down-right; paths that leave the grid end there.
pub open spec fn paths(g: GridView, i: int, j: int) -> nat
    decreases g.m - i,
{
    if i < 0 || i >= g.m || j < 0 || j >= g.n {
        0
    } else {
        (if i == g.m - 1 { 1nat } else { 0nat }) + if g.at(i, j).is_splitter {
            paths(g, i + 1, j - 1) + paths(g, i + 1, j + 1)
        } else {
            paths(g, i + 1, j)
        }
    }
}

/// The beam paths from each of the first `t` targets, added up.
pub open spec fn sum_paths(g: GridView, targets: Seq<(int, int)>, t: int) -> nat
    decreases t,
{
    if t <= 0 {
        0
    } else {
        sum_paths(g, targets, t - 1) + paths(g, targets[t - 1].0, targets[t - 1].1)
    }
}

proof fn lemma_sum_paths_grows(g: GridView, targets: Seq<(int, int)>, t: int)
    requires
        0 <= t <= targets.len(),
    ensures
        sum_paths(g, targets, t) <= sum_paths(g, targets, targets.len() as int),
    decreases targets.len() - t,
{
    if t < targets.len() {
        lemma_sum_paths_grows(g, targets, t + 1);
    }
}

/// Path counts read only where the splitters are.
proof fn lemma_paths_ignore_visited(a: GridView, b: GridView, i: int, j: int)
    requires
        a.m == b.m,
        a.n == b.n,
        a.cells.len() == b.cells.len(),
        forall|k: int| 0 <= k < a.cells.len() ==> (#[trigger] a.cells[k]).is_splitter == b.cells[k].is_splitter,
        a.wf(),
    ensures
        paths(a, i, j) == paths(b, i, j),
    decreases a.m - i,
{
    if !(i < 0 || i >= a.m || j < 0 || j >= a.n) {
        lemma_index(a.m as int, a.n as int, i, j);
        lemma_paths_ignore_visited(a, b, i + 1, j - 1);
        lemma_paths_ignore_visited(a, b, i + 1, j + 1);
        lemma_paths_ignore_visited(a, b, i + 1, j);
        assert(a.at(i, j).is_splitter == b.at(i, j).is_splitter);
    }
}

/// No cell below row `i` is marked visited.
pub open spec fn clear_below(g: GridView, i: int) -> bool {
    forall|a: int, b: int| i < a < g.m && 0 <= b < g.n ==> !(#[trigger] g.at(a, b)).visited
}

/// Counts the beam paths from `cur` to the bottom row, marking the cells of
/// the current path as it goes and clearing them again; `None` when the
/// count exceeds `u64`.
pub fn count_paths_naive(mat: &mut Manifold, cur: &Coord) -> (r: Option<u64>)
    requires
        old(mat)@.wf(),
        cur.i < old(mat).m,
        cur.j < old(mat).n,
        old(mat).m < usize::MAX,
        old(mat).n < usize::MAX,
        clear_below(old(mat)@, cur.i as int),
        !old(mat)@.at(cur.i as int, cur.j as int).visited,
    ensures
        final(mat)@ == old(mat)@,
        paths(old(mat)@, cur.i as int, cur.j as int) <= u64::MAX ==> r == Some(paths(old(mat)@, cur.i as int, cur.j as int) as u64),
        paths(old(mat)@, cur.i as int, cur.j as int) > u64::MAX ==> r is None,
    decreases old(mat).m - cur.i,
{
    let ghost g0 = mat@;
    let m = mat.m;
    let n = mat.n;
    let mut count: u64 = if cur.i == m - 1 { 1 } else { 0 };
    let total = mat.cells.len();
    proof { lemma_index(m as int, n as int, cur.i as int, cur.j as int); }
    let k = cur.i * n + cur.j;
    let cell = mat.cells[k];
    mat.cells.set(k, Cell { is_splitter: cell.is_splitter, visited: true });
    let adjs: Vec<Coord> = if cell.is_splitter {
        vec![nextl(cur), nextr(cur)]
    } else {
        vec![next(cur)]
    };
    let ghost targets: Seq<(int, int)> = if cell.is_splitter {
        seq![(cur.i + 1, cur.j - 1), (cur.i + 1, cur.j + 1)]
    } else {
        seq![(cur.i + 1, cur.j as int)]
    };
    proof {
        assert(g0.at(cur.i as int, cur.j as int) == cell);
        reveal_with_fuel(sum_paths, 3);
    }
    let ghost whole = paths(g0, cur.i as int, cur.j as int);
    assert(whole == (if cur.i == m - 1 { 1int } else { 0int }) + sum_paths(g0, targets, targets.len() as int));
    let mut t: usize = 0;
    while t < adjs.len()
        invariant
            whole == paths(g0, cur.i as int, cur.j as int),
            whole == (if cur.i == m - 1 { 1int } else { 0int }) + sum_paths(g0, targets, targets.len() as int),
            g0.wf(),
            g0 == old(mat)@,
            m == g0.m,
            n == g0.n,
            mat.m == m,
            mat.n == n,
            cur.i < m,
            cur.j < n,
            m < usize::MAX,
            n < usize::MAX,
            k == cur.i * n + cur.j,
            0 <= k < m * n,
            m * n <= usize::MAX,
            mat.cells@ == g0.cells.update(k as int, Cell { is_splitter: cell.is_splitter, visited: true }),
            cell == g0.cells[k as int],
            clear_below(g0, cur.i as int),
            adjs@.len() == targets.len(),
            forall|u: int| 0 <= u < adjs@.len() ==> {
                &&& (#[trigger] adjs@[u]).i == targets[u].0
                &&& (targets[u].1 >= 0 ==> adjs@[u].j == targets[u].1)
                &&& (targets[u].1 < 0 ==> adjs@[u].j == usize::MAX)
                &&& targets[u].0 == cur.i + 1
            },
            t <= adjs@.len(),
            count == (if cur.i == m - 1 { 1int } else { 0int }) + sum_paths(g0, targets, t as int),
        decreases adjs@.len() - t,
    {
        let adj = adjs[t];
        assert(adj.i == cur.i + 1);
        if inside(&adj, m, n) {
            proof {
                lemma_index(m as int, n as int, adj.i as int, adj.j as int);
                if adj.i * n + adj.j == k {
                    lemma_index_distinct(n as int, adj.i as int, adj.j as int, cur.i as int, cur.j as int);
                }
            }
            let ka = adj.i * n + adj.j;
            proof {
                assert(g0.at(adj.i as int, adj.j as int) == g0.cells[ka as int]);
            }
            if !mat.cells[ka].visited {
                let ghost before = mat@;
                proof {
                    assert forall|a: int, b: int| adj.i < a < before.m && 0 <= b < before.n implies !(#[trigger] before.at(a, b)).visited by {
                        lemma_index(m as int, n as int, a, b);
                        if a * n + b == k {
                            lemma_index_distinct(n as int, a, b, cur.i as int, cur.j as int);
                        }
                        assert(g0.at(a, b) == g0.cells[a * n + b]);
                    }
                    lemma_paths_ignore_visited(before, g0, adj.i as int, adj.j as int);
                }
                let sub = count_paths_naive(mat, &adj);
                assert(mat@ == before);
                match sub {
                    Some(v) => match count.checked_add(v) {
                        Some(c) => {
                            count = c;
                        },
                        None => {
                            proof {
                                lemma_sum_paths_grows(g0, targets, t + 1);
                                assert(g0.at(cur.i as int, cur.j as int) == cell);
                            }
                            mat.cells.set(k, cell);
                            proof { assert(mat.cells@ =~= g0.cells); }
                            return None;
                        },
                    },
                    None => {
                        proof {
                            lemma_sum_paths_grows(g0, targets, t + 1);
                            assert(g0.at(cur.i as int, cur.j as int) == cell);
                        }
                        mat.cells.set(k, cell);
                        proof { assert(mat.cells@ =~= g0.cells); }
                        return None;
                    },
                }
            }
        }
        t = t + 1;
    }
    mat.cells.set(k, cell);
    proof {
        assert(mat.cells@ =~= g0.cells);
    }
    Some(count)
}

pub open spec fn cell_of(b: u8) -> Cell {
    Cell { is_splitter: b == 94u8, visited: false }
}

/// The cells of the rows `ls`, row after row.
pub open spec fn grid_cells(ls: Seq<Seq<u8>>) -> Seq<Cell>
    decreases ls.len(),
{
    if ls.len() == 0 {
        Seq::empty()
    } else {
        grid_cells(ls.drop_last()) + ls.last().map_values(|b: u8| cell_of(b))
    }
}

/// Every row has `n` bytes, each of which names a cell.
pub open spec fn valid_rows(ls: Seq<Seq<u8>>, n: int) -> bool {
    forall|i: int| 0 <= i < ls.len() ==> {
        &&& (#[trigger] ls[i]).len() == n
        &&& forall|j: int| 0 <= j < n ==> #[trigger] cell_type_of(ls[i][j]) is Some
    }
}

/// The last source in reading order before column `j` of row `i`, or the
/// origin when there is none.
pub open spec fn last_source(ls: Seq<Seq<u8>>, i: int, j: int) -> Coord
    decreases i, j,
{
    if i <= 0 && j <= 0 {
        Coord { i: 0, j: 0 }
    } else if j <= 0 {
        last_source(ls, i - 1, ls[i - 1].len() as int)
    } else if ls[i][j - 1] == 83u8 {
        Coord { i: i as usize, j: (j - 1) as usize }
    } else {
        last_source(ls, i, j - 1)
    }
}

/// The grid and the beam's source that the text `s` describes, if it is a
/// rectangle of `.`, `S` and `^`.
pub open spec fn manifold_of(s: Seq<u8>) -> Option<(GridView, Coord)> {
    let ls = lines(s);
    let n = if ls.len() > 0 { ls[0].len() as int } else { 0 };
    if valid_rows(ls, n) {
        Some((GridView { cells: grid_cells(ls), m: ls.len() as int, n }, last_source(ls, ls.len() as int, 0)))
    } else {
        None
    }
}

proof fn lemma_grid_cells_len(ls: Seq<Seq<u8>>, n: int)
    requires
        forall|i: int| 0 <= i < ls.len() ==> (#[trigger] ls[i]).len() == n,
        n >= 0,
    ensures
        grid_cells(ls).len() == ls.len() * n,
    decreases ls.len(),
{
    if ls.len() > 0 {
        let d = ls.drop_last();
        assert forall|i: int| 0 <= i < d.len() implies (#[trigger] d[i]).len() == n by {
            assert(d[i] == ls[i]);
        }
        lemma_grid_cells_len(d, n);
        assert(ls.last() == ls[ls.len() - 1]);
        assert((ls.len() - 1) * n + n == ls.len() * n) by (nonlinear_arith);
    }
}

/// Reads the manifold: the grid, all cells unvisited, and the source.
pub fn read_manifold(input: &str) -> (r: Option<(Manifold, Coord)>)
    ensures
        manifold_of(input.spec_bytes()) is None ==> r is None,
        manifold_of(input.spec_bytes()) is Some ==> r is Some && r.unwrap().0@ == manifold_of(input.spec_bytes()).unwrap().0
            && r.unwrap().1 == manifold_of(input.spec_bytes()).unwrap().1,
        r is Some ==> r.unwrap().0@.wf(),
{
    let ls = split_lines(input.as_bytes());
    let ghost lv = lines(input.spec_bytes());
    assert(views(ls@).len() == ls@.len());
    let m = ls.len();
    let n: usize = if m > 0 { ls[0].len() } else { 0 };
    proof {
        if m > 0 {
            assert(ls@[0]@ == lv[0]);
        }
    }
    let mut cells: Vec<Cell> = Vec::new();
    let mut start = Coord { i: 0, j: 0 };
    let mut i: usize = 0;
    assert(lv.take(0) =~= Seq::<Seq<u8>>::empty());
    while i < m
        invariant
            views(ls@) == lv,
            lv == lines(input.spec_bytes()),
            ls@.len() == lv.len() == m,
            n == (if m > 0 { lv[0].len() as int } else { 0 }),
            i <= m,
            valid_rows(lv.take(i as int), n as int),
            cells@ == grid_cells(lv.take(i as int)),
            start == last_source(lv, i as int, 0),
        decreases m - i,
    {
        assert(ls@[i as int]@ == lv[i as int]);
        let line = ls[i].as_slice();
        if line.len() != n {
            assert(!valid_rows(lv, n as int)) by {
                assert(lv[i as int].len() != n);
            }
            return None;
        }
        let ghost before = cells@;
        let mut j: usize = 0;
        while j < n
            invariant
                line@ == lv[i as int],
                line@.len() == n,
                lv == lines(input.spec_bytes()),
                n == (if m > 0 { lv[0].len() as int } else { 0 }),
                i < m == lv.len(),
                j <= n,
                cells@ == before + lv[i as int].take(j as int).map_values(|b: u8| cell_of(b)),
                forall|q: int| 0 <= q < j ==> #[trigger] cell_type_of(lv[i as int][q]) is Some,
                start == last_source(lv, i as int, j as int),
            decreases n - j,
        {
            let b = line[j];
            let t = match CellType::from_byte(b) {
                Some(t) => t,
                None => {
                    assert(!valid_rows(lv, n as int)) by {
                        assert(cell_type_of(lv[i as int][j as int]) is None);
                    }
                    return None;
                },
            };
            cells.push(Cell { is_splitter: t == CellType::Splitter, visited: false });
            assert(lv[i as int].take(j + 1).map_values(|b: u8| cell_of(b)) =~= lv[i as int].take(j as int).map_values(|b: u8| cell_of(b)).push(cell_of(b)));
            if t == CellType::Source {
                start = Coord { i, j };
            }
            j = j + 1;
        }
        proof {
            assert(lv[i as int].take(n as int) =~= lv[i as int]);
            assert(lv.take(i + 1).drop_last() =~= lv.take(i as int));
            assert(lv.take(i + 1).last() == lv[i as int]);
            assert(valid_rows(lv.take(i + 1), n as int)) by {
                assert forall|q: int| 0 <= q < lv.take(i + 1).len() implies {
                    &&& (#[trigger] lv.take(i + 1)[q]).len() == n
                    &&& forall|j: int| 0 <= j < n ==> #[trigger] cell_type_of(lv.take(i + 1)[q][j]) is Some
                } by {
                    if q < i {
                        assert(lv.take(i + 1)[q] == lv.take(i as int)[q]);
                    }
                }
            }
            assert(last_source(lv, i + 1, 0) == last_source(lv, i as int, lv[i as int].len() as int));
        }
        i = i + 1;
    }
    proof {
        assert(lv.take(m as int) =~= lv);
        lemma_grid_cells_len(lv, n as int);
    }
    Some((Manifold { cells, m, n }, start))
}

/// The number of beam paths from the source to the bottom row of the
/// manifold in `input`; `None` when the text is not a manifold, the source
/// lies outside it, or the count exceeds `u64`. A grid as wide or as tall as
/// the largest `usize` is not counted.
pub fn part_two(input: &str) -> (r: Option<u64>)
    ensures
        manifold_of(input.spec_bytes()) is None ==> r is None,
        manifold_of(input.spec_bytes()) is Some ==> {
            let (g, s) = manifold_of(input.spec_bytes()).unwrap();
            let p = paths(g, s.i as int, s.j as int);
            let fits = s.i < g.m && s.j < g.n && g.m < usize::MAX && g.n < usize::MAX;
            &&& (fits && p <= u64::MAX) ==> r == Some(p as u64)
            &&& (fits && p > u64::MAX) ==> r is None
        },
{
    let (mut mat, start) = match read_manifold(input) {
        Some(p) => p,
        None => {
            return None;
        },
    };
    if start.i >= mat.m || start.j >= mat.n || mat.m == usize::MAX || mat.n == usize::MAX {
        return None;
    }
    proof {
        assert forall|a: int, b: int| start.i < a < mat@.m && 0 <= b < mat@.n implies !(#[trigger] mat@.at(a, b)).visited by {
            lemma_index(mat.m as int, mat.n as int, a, b);
            lemma_grid_cells_visited(lines(input.spec_bytes()), a * mat.n + b);
        }
        lemma_index(mat.m as int, mat.n as int, start.i as int, start.j as int);
        lemma_grid_cells_visited(lines(input.spec_bytes()), start.i * mat.n + start.j);
    }
    count_paths_naive(&mut mat, &start)
}

proof fn lemma_grid_cells_visited(ls: Seq<Seq<u8>>, k: int)
    requires
        0 <= k < grid_cells(ls).len(),
    ensures
        !grid_cells(ls)[k].visited,
    decreases ls.len(),
{
    if ls.len() > 0 {
        let d = ls.drop_last();
        if k < grid_cells(d).len() {
            lemma_grid_cells_visited(d, k);
        }
    }
}

/// The splitters among the first `k` cells that `new` marks visited and
/// `old` does not.
pub open spec fn newly_split(old: Seq<Cell>, new: Seq<Cell>, k: int) -> nat
    decreases k,
{
    if k <= 0 {
        0
    } else {
        newly_split(old, new, k - 1) + if new[k - 1].visited && !old[k - 1].visited && new[k - 1].is_splitter {
            1nat
        } else {
            0nat
        }
    }
}

/// `b` is `a` with possibly more cells marked visited.
pub open spec fn grows(a: GridView, b: GridView) -> bool {
    &&& a.m == b.m
    &&& a.n == b.n
    &&& a.cells.len() == b.cells.len()
    &&& forall|k: int| 0 <= k < a.cells.len() ==> {
        &&& (#[trigger] b.cells[k]).is_splitter == a.cells[k].is_splitter
        &&& (a.cells[k].visited ==> b.cells[k].visited)
    }
}

proof fn lemma_newly_add(a: GridView, b: GridView, c: GridView, k: int)
    requires
        grows(a, b),
        grows(b, c),
        0 <= k <= a.cells.len(),
    ensures
        newly_split(a.cells, c.cells, k) == newly_split(a.cells, b.cells, k) + newly_split(b.cells, c.cells, k),
    decreases k,
{
    if k > 0 {
        lemma_newly_add(a, b, c, k - 1);
        assert(b.cells[k - 1].is_splitter == a.cells[k - 1].is_splitter);
        assert(c.cells[k - 1].is_splitter == b.cells[k - 1].is_splitter);
    }
}

proof fn lemma_newly_bound(a: Seq<Cell>, b: Seq<Cell>, k: int)
    requires
        0 <= k,
    ensures
        newly_split(a, b, k) <= k,
    decreases k,
{
    if k > 0 {
        lemma_newly_bound(a, b, k - 1);
    }
}

proof fn lemma_newly_mark(a: Seq<Cell>, x: int, c: Cell, k: int)
    requires
        0 <= x < a.len(),
        0 <= k <= a.len(),
        !a[x].visited,
        c.visited,
        c.is_splitter == a[x].is_splitter,
    ensures
        newly_split(a, a.update(x, c), k) == if x < k && c.is_splitter { 1nat } else { 0nat },
    decreases k,
{
    if k > 0 {
        lemma_newly_mark(a, x, c, k - 1);
    }
}

/// The cells that the beam reaches next from `(a, b)` are visited, as far
/// as they lie in the grid.
pub open spec fn successors_visited(g: GridView, a: int, b: int) -> bool {
    if g.at(a, b).is_splitter {
        &&& (a + 1 < g.m && b >= 1 ==> g.at(a + 1, b - 1).visited)
        &&& (a + 1 < g.m && b + 1 < g.n ==> g.at(a + 1, b + 1).visited)
    } else {
        a + 1 < g.m ==> g.at(a + 1, b).visited
    }
}

/// Follows the beam from `cur` through the cells not yet visited, marking
/// each cell it reaches; returns how many splitters it newly reached.
pub fn count_splits(mat: &mut Manifold, cur: &Coord) -> (r: u64)
    requires
        old(mat)@.wf(),
        cur.i < old(mat).m,
        cur.j < old(mat).n,
        old(mat).m < usize::MAX,
        old(mat).n < usize::MAX,
        !old(mat)@.at(cur.i as int, cur.j as int).visited,
    ensures
        final(mat)@.wf(),
        grows(old(mat)@, final(mat)@),
        final(mat)@.at(cur.i as int, cur.j as int).visited,
        r == newly_split(old(mat)@.cells, final(mat)@.cells, old(mat)@.cells.len() as int),
        forall|a: int, b: int|
            0 <= a < old(mat).m && 0 <= b < old(mat).n && (#[trigger] final(mat)@.at(a, b)).visited
                && !old(mat)@.at(a, b).visited ==> successors_visited(final(mat)@, a, b),
    decreases old(mat).m - cur.i,
{
    let ghost g0 = mat@;
    let m = mat.m;
    let n = mat.n;
    let total = mat.cells.len();
    proof { lemma_index(m as int, n as int, cur.i as int, cur.j as int); }
    let k = cur.i * n + cur.j;
    let cell = mat.cells[k];
    let marked = Cell { is_splitter: cell.is_splitter, visited: true };
    mat.cells.set(k, marked);
    let mut splits: u64 = if cell.is_splitter { 1 } else { 0 };
    proof {
        lemma_newly_mark(g0.cells, k as int, marked, total as int);
    }
    let adjs: Vec<Coord> = if cell.is_splitter {
        vec![nextl(cur), nextr(cur)]
    } else {
        vec![next(cur)]
    };
    let ghost targets: Seq<(int, int)> = if cell.is_splitter {
        seq![(cur.i + 1, cur.j - 1), (cur.i + 1, cur.j + 1)]
    } else {
        seq![(cur.i + 1, cur.j as int)]
    };
    proof {
        assert forall|a: int, b: int|
            0 <= a < m && 0 <= b < n && (a != cur.i || b != cur.j) && (#[trigger] mat@.at(a, b)).visited
                && !g0.at(a, b).visited implies successors_visited(mat@, a, b) by {
            lemma_index(m as int, n as int, a, b);
            if a * n + b == k {
                lemma_index_distinct(n as int, a, b, cur.i as int, cur.j as int);
            }
        }
    }
    let mut t: usize = 0;
    while t < adjs.len()
        invariant
            g0 == old(mat)@,
            g0.wf(),
            m == g0.m,
            n == g0.n,
            mat.m == m,
            mat.n == n,
            mat@.wf(),
            total == g0.cells.len(),
            cur.i < m,
            cur.j < n,
            m < usize::MAX,
            n < usize::MAX,
            k == cur.i * n + cur.j,
            0 <= k < m * n,
            m * n <= usize::MAX,
            cell == g0.cells[k as int],
            grows(g0, mat@),
            mat@.cells[k as int].visited,
            splits == newly_split(g0.cells, mat@.cells, total as int),
            adjs@.len() == targets.len(),
            forall|u: int| 0 <= u < adjs@.len() ==> {
                &&& (#[trigger] adjs@[u]).i == targets[u].0
                &&& (targets[u].1 >= 0 ==> adjs@[u].j == targets[u].1)
                &&& (targets[u].1 < 0 ==> adjs@[u].j == usize::MAX)
                &&& targets[u].0 == cur.i + 1
            },
            t <= adjs@.len(),
            forall|u: int| 0 <= u < t && 0 <= targets[u].1 < n && targets[u].0 < m ==> #[trigger] mat@.at(targets[u].0, targets[u].1).visited,
            forall|a: int, b: int|
                0 <= a < m && 0 <= b < n && (a != cur.i || b != cur.j) && (#[trigger] mat@.at(a, b)).visited
                    && !g0.at(a, b).visited ==> successors_visited(mat@, a, b),
        decreases adjs@.len() - t,
    {
        let adj = adjs[t];
        assert(adj.i == cur.i + 1);
        if inside(&adj, m, n) {
            proof {
                lemma_index(m as int, n as int, adj.i as int, adj.j as int);
            }
            let ka = adj.i * n + adj.j;
            if !mat.cells[ka].visited {
                let ghost before = mat@;
                proof {
                    assert(before.at(adj.i as int, adj.j as int) == before.cells[ka as int]);
                }
                let sub = count_splits(mat, &adj);
                proof {
                    lemma_newly_add(g0, before, mat@, total as int);
                    lemma_newly_bound(g0.cells, mat@.cells, total as int);
                    assert(mat@.cells.len() == total);
                    assert forall|u: int| 0 <= u < t && 0 <= targets[u].1 < n && targets[u].0 < m implies #[trigger] mat@.at(targets[u].0, targets[u].1).visited by {
                        assert(adjs@[u].i == targets[u].0);
                        lemma_index(m as int, n as int, targets[u].0, targets[u].1);
                        assert(before.at(targets[u].0, targets[u].1).visited);
                    }
                    assert(mat@.at(adj.i as int, adj.j as int).visited);
                    assert forall|a: int, b: int|
                        0 <= a < m && 0 <= b < n && (a != cur.i || b != cur.j) && (#[trigger] mat@.at(a, b)).visited
                            && !g0.at(a, b).visited implies successors_visited(mat@, a, b) by {
                        lemma_index(m as int, n as int, a, b);
                        if !before.at(a, b).visited {
                            assert(successors_visited(mat@, a, b));
                        } else {
                            assert(successors_visited(before, a, b));
                            assert(mat@.at(a, b).is_splitter == before.at(a, b).is_splitter);
                            if a + 1 < m {
                                if b >= 1 {
                                    lemma_index(m as int, n as int, a + 1, b - 1);
                                }
                                if b + 1 < n {
                                    lemma_index(m as int, n as int, a + 1, b + 1);
                                }
                                lemma_index(m as int, n as int, a + 1, b);
                            }
                        }
                    }
                }
                splits = splits + sub;
            } else {
                proof {
                    assert(mat@.at(adj.i as int, adj.j as int) == mat@.cells[ka as int]);
                }
            }
        }
        t = t + 1;
    }
    proof {
        assert(mat@.at(cur.i as int, cur.j as int) == mat@.cells[k as int]);
        assert(mat@.cells[k as int].is_splitter == cell.is_splitter);
        assert(g0.at(cur.i as int, cur.j as int) == g0.cells[k as int]);
        if cell.is_splitter {
            assert(adjs@[0].i == targets[0].0);
            assert(adjs@[1].i == targets[1].0);
        } else {
            assert(adjs@[0].i == targets[0].0);
            assert(targets[0] == (cur.i + 1, cur.j as int));
            if cur.i + 1 < m {
                assert(mat@.at(targets[0].0, targets[0].1).visited);
            }
        }
        assert(successors_visited(mat@, cur.i as int, cur.j as int));
    }
    splits
}

/// How many splitters the beam from the source of the manifold in `input`
/// reaches; `None` when the text is not a manifold or the source lies
/// outside it.
pub fn part_one(input: &str) -> (r: Option<u64>)
    ensures
        manifold_of(input.spec_bytes()) is None ==> r is None,
        manifold_of(input.spec_bytes()) is Some ==> {
            let (g, s) = manifold_of(input.spec_bytes()).unwrap();
            (s.i < g.m && s.j < g.n && g.m < usize::MAX && g.n < usize::MAX) <==> r is Some
        },
{
    let (mut mat, start) = match read_manifold(input) {
        Some(p) => p,
        None => {
            return None;
        },
    };
    if start.i >= mat.m || start.j >= mat.n || mat.m == usize::MAX || mat.n == usize::MAX {
        return None;
    }
    proof {
        lemma_index(mat.m as int, mat.n as int, start.i as int, start.j as int);
        lemma_grid_cells_visited(lines(input.spec_bytes()), start.i * mat.n + start.j);
    }
    Some(count_splits(&mut mat, &start))
}

} // verus!
