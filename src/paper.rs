use vstd::prelude::*;
use vstd::string::StringSliceAdditionalSpecFns;
use crate::text::{lines, views, split_lines};

verus! {

#[derive(Debug, Clone, Copy, PartialEq, Eq, Structural)]
pub enum CellType {
    Empty,
    Paper,
}

/// A grid cell and the number of paper rolls next to it.
#[derive(Debug, Clone, Copy, PartialEq, Eq, Structural)]
pub struct Cell {
    pub kind: CellType,
    pub adj: u8,
}

impl Cell {
    pub fn new(t: CellType) -> (r: Cell)
        ensures
            r == (Cell { kind: t, adj: 0 }),
    {
        Cell { kind: t, adj: 0 }
    }
}

/// A rectangular grid of `m` rows of `n` cells, stored row after row.
pub struct PaperGrid {
    pub cells: Vec<Cell>,
    pub m: usize,
    pub n: usize,
}

pub open spec fn b2i(b: bool) -> int {
    if b { 1 } else { 0 }
}

/// Whether `(i, j)` lies in the grid and holds paper.
pub open spec fn paper(g: Seq<Cell>, m: int, n: int, i: int, j: int) -> bool {
    0 <= i < m && 0 <= j < n && g[i * n + j].kind == CellType::Paper
}

/// The number of the eight cells around `(i, j)` that hold paper.
pub open spec fn paper_neighbors(g: Seq<Cell>, m: int, n: int, i: int, j: int) -> int {
    b2i(paper(g, m, n, i, j + 1)) + b2i(paper(g, m, n, i, j - 1)) + b2i(paper(g, m, n, i + 1, j))
        + b2i(paper(g, m, n, i - 1, j)) + b2i(paper(g, m, n, i + 1, j + 1)) + b2i(paper(g, m, n, i - 1, j + 1))
        + b2i(paper(g, m, n, i + 1, j - 1)) + b2i(paper(g, m, n, i - 1, j - 1))
}

/// Two cells touch: they differ and lie at most one row and one column
/// apart.
pub open spec fn touches(a: int, b: int, c: int, d: int) -> bool {
    (a != c || b != d) && -1 <= a - c <= 1 && -1 <= b - d <= 1
}

proof fn lemma_index(m: int, n: int, i: int, j: int)
    requires
        0 <= i < m,
        0 <= j < n,
    ensures
        0 <= i * n <= i * n + j < m * n,
{
    assert(i * n + j < m * n) by (nonlinear_arith)
        requires
            0 <= i < m,
            0 <= j < n,
    ;
    assert(0 <= i * n) by (nonlinear_arith)
        requires
            0 <= i,
            0 <= n,
    ;
}

proof fn lemma_index_distinct(n: int, i: int, j: int, a: int, b: int)
    requires
        0 <= j < n,
        0 <= b < n,
        i * n + j == a * n + b,
    ensures
        i == a && j == b,
{
    assert(i == a && j == b) by (nonlinear_arith)
        requires
            0 <= j < n,
            0 <= b < n,
            i * n + j == a * n + b,
    ;
}

/// Changing only the kind of cell `(pi, pj)` changes the neighbor count of
/// the cells that touch it, by the change in that cell's paper.
proof fn lemma_change(g: Seq<Cell>, h: Seq<Cell>, m: int, n: int, pi: int, pj: int, i: int, j: int)
    requires
        g.len() == m * n,
        h.len() == m * n,
        0 <= pi < m,
        0 <= pj < n,
        forall|k: int| 0 <= k < m * n && k != pi * n + pj ==> (#[trigger] h[k]).kind == g[k].kind,
    ensures
        paper_neighbors(h, m, n, i, j) == paper_neighbors(g, m, n, i, j) + if touches(i, j, pi, pj) {
            b2i(paper(h, m, n, pi, pj)) - b2i(paper(g, m, n, pi, pj))
        } else {
            0
        },
{
    assert forall|a: int, b: int| (a != pi || b != pj) implies paper(h, m, n, a, b) == paper(g, m, n, a, b) by {
        if 0 <= a < m && 0 <= b < n {
            lemma_index(m, n, a, b);
            lemma_index(m, n, pi, pj);
            if a * n + b == pi * n + pj {
                lemma_index_distinct(n, a, b, pi, pj);
            }
        }
    }
}

pub fn inside(ki: i64, kj: i64, m: usize, n: usize) -> (r: bool)
    ensures
        r == (0 <= ki < m && 0 <= kj < n),
{
    0 <= ki && (ki as i128) < (m as i128) && 0 <= kj && (kj as i128) < (n as i128)
}

/// Whether `(a, b)` is one of the listed cells.
pub open spec fn listed(v: Seq<(usize, usize)>, a: int, b: int) -> bool {
    exists|t: int| 0 <= t < v.len() && v[t].0 == a && v[t].1 == b
}

/// The listed cells are distinct, and they are exactly the cells of the
/// grid that touch `(i, j)` and come before offset `upto` among the eight.
fn push_if_inside(v: &mut Vec<(usize, usize)>, i: usize, j: usize, di: i64, dj: i64, m: usize, n: usize)
    requires
        i < m,
        j < n,
        -1 <= di <= 1,
        -1 <= dj <= 1,
        di != 0 || dj != 0,
        m <= i64::MAX,
        n <= i64::MAX,
        !listed(old(v)@, i + di, j + dj),
    ensures
        final(v)@ == if 0 <= i + di < m && 0 <= j + dj < n {
            old(v)@.push(((i + di) as usize, (j + dj) as usize))
        } else {
            old(v)@
        },
        forall|a: int, b: int| #[trigger] listed(final(v)@, a, b) == (listed(old(v)@, a, b) || (a == i + di && b == j + dj
            && 0 <= a < m && 0 <= b < n)),
{
    let ki = i as i64 + di;
    let kj = j as i64 + dj;
    if inside(ki, kj, m, n) {
        v.push((ki as usize, kj as usize));
        proof {
            let w = v@;
            assert forall|a: int, b: int| #[trigger] listed(w, a, b) == (listed(old(v)@, a, b) || (a == ki && b == kj)) by {
                if listed(w, a, b) {
                    let t = choose|t: int| 0 <= t < w.len() && w[t].0 == a && w[t].1 == b;
                    if t < old(v)@.len() {
                        assert(old(v)@[t] == w[t]);
                    }
                }
                if listed(old(v)@, a, b) {
                    let t = choose|t: int| 0 <= t < old(v)@.len() && old(v)@[t].0 == a && old(v)@[t].1 == b;
                    assert(w[t] == old(v)@[t]);
                }
                if a == ki && b == kj {
                    assert(w[w.len() - 1] == (ki as usize, kj as usize));
                }
            }
        }
    }
}

pub open spec fn distinct(v: Seq<(usize, usize)>) -> bool {
    forall|s: int, t: int| 0 <= s < t < v.len() ==> #[trigger] v[s] != #[trigger] v[t]
}

/// The cells of the grid that touch `(i, j)`.
pub fn adjs(i: usize, j: usize, m: usize, n: usize) -> (r: Vec<(usize, usize)>)
    requires
        i < m,
        j < n,
        m <= i64::MAX,
        n <= i64::MAX,
    ensures
        distinct(r@),
        forall|a: int, b: int| #[trigger] listed(r@, a, b) == (0 <= a < m && 0 <= b < n && touches(a, b, i as int, j as int)),
{
    let mut v: Vec<(usize, usize)> = Vec::new();
    assert forall|a: int, b: int| !#[trigger] listed(v@, a, b) by {}
    push_if_inside(&mut v, i, j, 0, 1, m, n);
    push_if_inside(&mut v, i, j, 0, -1, m, n);
    push_if_inside(&mut v, i, j, 1, 0, m, n);
    push_if_inside(&mut v, i, j, -1, 0, m, n);
    push_if_inside(&mut v, i, j, 1, 1, m, n);
    push_if_inside(&mut v, i, j, -1, 1, m, n);
    push_if_inside(&mut v, i, j, 1, -1, m, n);
    push_if_inside(&mut v, i, j, -1, -1, m, n);
    proof {
        assert forall|a: int, b: int| #[trigger] listed(v@, a, b) == (0 <= a < m && 0 <= b < n && touches(a, b, i as int, j as int)) by {
            assert(!listed(Seq::<(usize, usize)>::empty(), a, b));
        }
    }
    v
}

/// `g` with paper kept only in the cells before flat index `k`, and every
/// count cleared.
pub open spec fn prefix_grid(g: Seq<Cell>, k: int) -> Seq<Cell> {
    Seq::new(g.len(), |q: int| Cell { kind: if q < k { g[q].kind } else { CellType::Empty }, adj: 0 })
}

/// Sets each cell's count to the number of paper rolls around it.
pub fn count_adjacent(grid: &mut PaperGrid)
    requires
        old(grid).cells@.len() == old(grid).m * old(grid).n,
        old(grid).m <= i64::MAX,
        old(grid).n <= i64::MAX,
    ensures
        final(grid).m == old(grid).m,
        final(grid).n == old(grid).n,
        final(grid).cells@.len() == old(grid).cells@.len(),
        forall|q: int| 0 <= q < old(grid).cells@.len() ==> (#[trigger] final(grid).cells@[q]).kind == old(grid).cells@[q].kind,
        forall|a: int, b: int| 0 <= a < old(grid).m && 0 <= b < old(grid).n ==> #[trigger] final(grid).cells@[a * old(grid).n + b].adj
            == paper_neighbors(old(grid).cells@, old(grid).m as int, old(grid).n as int, a, b),
{
    let ghost g0 = grid.cells@;
    let m = grid.m;
    let n = grid.n;
    let total = grid.cells.len();
    let mut q: usize = 0;
    while q < total
        invariant
            total == g0.len() == grid.cells@.len(),
            grid.m == m,
            grid.n == n,
            q <= total,
            forall|r: int| 0 <= r < total ==> (#[trigger] grid.cells@[r]).kind == g0[r].kind,
            forall|r: int| 0 <= r < q ==> (#[trigger] grid.cells@[r]).adj == 0,
        decreases total - q,
    {
        let c = grid.cells[q];
        grid.cells.set(q, Cell { kind: c.kind, adj: 0 });
        q = q + 1;
    }
    proof {
        let h = prefix_grid(g0, 0);
        assert forall|x: int, y: int| #![trigger paper(h, m as int, n as int, x, y)] !paper(h, m as int, n as int, x, y) by {
            if 0 <= x < m && 0 <= y < n {
                lemma_index(m as int, n as int, x, y);
            }
        }
        assert forall|a: int, b: int| 0 <= a < m && 0 <= b < n implies #[trigger] grid.cells@[a * n + b].adj == paper_neighbors(h, m as int, n as int, a, b) by {
            lemma_index(m as int, n as int, a, b);
        }
    }
    let mut i: usize = 0;
    while i < m
        invariant
            total == g0.len() == grid.cells@.len() == m * n,
            grid.m == m,
            grid.n == n,
            m <= i64::MAX,
            n <= i64::MAX,
            i <= m,
            forall|r: int| 0 <= r < total ==> (#[trigger] grid.cells@[r]).kind == g0[r].kind,
            forall|a: int, b: int| 0 <= a < m && 0 <= b < n ==> #[trigger] grid.cells@[a * n + b].adj
                == paper_neighbors(prefix_grid(g0, i * n), m as int, n as int, a, b),
        decreases m - i,
    {
        let mut j: usize = 0;
        while j < n
            invariant
                total == g0.len() == grid.cells@.len() == m * n,
                grid.m == m,
                grid.n == n,
                m <= i64::MAX,
                n <= i64::MAX,
                i < m,
                j <= n,
                forall|r: int| 0 <= r < total ==> (#[trigger] grid.cells@[r]).kind == g0[r].kind,
                forall|a: int, b: int| 0 <= a < m && 0 <= b < n ==> #[trigger] grid.cells@[a * n + b].adj
                    == paper_neighbors(prefix_grid(g0, i * n + j), m as int, n as int, a, b),
            decreases n - j,
        {
            proof { lemma_index(m as int, n as int, i as int, j as int); }
            let k = i * n + j;
            let ghost before = prefix_grid(g0, k as int);
            let ghost after = prefix_grid(g0, k + 1);
            proof {
                assert forall|r: int| 0 <= r < m * n && r != i * n + j implies (#[trigger] after[r]).kind == before[r].kind by {}
            }
            if grid.cells[k].kind == CellType::Paper {
                let list = adjs(i, j, m, n);
                let mut t: usize = 0;
                while t < list.len()
                    invariant
                        total == g0.len() == grid.cells@.len() == m * n,
                        grid.m == m,
                        grid.n == n,
                        i < m,
                        j < n,
                        k == i * n + j,
                        before == prefix_grid(g0, k as int),
                        distinct(list@),
                        forall|a: int, b: int| #[trigger] listed(list@, a, b) == (0 <= a < m && 0 <= b < n && touches(a, b, i as int, j as int)),
                        t <= list@.len(),
                        forall|r: int| 0 <= r < total ==> (#[trigger] grid.cells@[r]).kind == g0[r].kind,
                        forall|a: int, b: int| 0 <= a < m && 0 <= b < n ==> #[trigger] grid.cells@[a * n + b].adj
                            == paper_neighbors(before, m as int, n as int, a, b) + b2i(listed(list@.take(t as int), a, b)),
                    decreases list@.len() - t,
                {
                    let (ka, kb) = list[t];
                    assert(listed(list@, ka as int, kb as int));
                    proof { lemma_index(m as int, n as int, ka as int, kb as int); }
                    let idx = ka * n + kb;
                    let c = grid.cells[idx];
                    proof {
                        let w0 = list@.take(t as int);
                        assert(!listed(w0, ka as int, kb as int)) by {
                            if listed(w0, ka as int, kb as int) {
                                let s = choose|s: int| 0 <= s < w0.len() && w0[s].0 == ka && w0[s].1 == kb;
                                assert(list@[s] == w0[s]);
                                assert(list@[s] == list@[t as int]);
                            }
                        }
                        assert(c.adj <= 8);
                    }
                    grid.cells.set(idx, Cell { kind: c.kind, adj: c.adj + 1 });
                    proof {
                        let w1 = list@.take(t + 1);
                        let w0 = list@.take(t as int);
                        assert forall|a: int, b: int| #[trigger] listed(w1, a, b) == (listed(w0, a, b) || (a == ka && b == kb)) by {
                            if listed(w1, a, b) {
                                let s = choose|s: int| 0 <= s < w1.len() && w1[s].0 == a && w1[s].1 == b;
                                if s < t {
                                    assert(w0[s] == w1[s]);
                                }
                            }
                            if listed(w0, a, b) {
                                let s = choose|s: int| 0 <= s < w0.len() && w0[s].0 == a && w0[s].1 == b;
                                assert(w1[s] == w0[s]);
                            }
                            if a == ka && b == kb {
                                assert(w1[t as int] == list@[t as int]);
                            }
                        }
                        assert forall|a: int, b: int| 0 <= a < m && 0 <= b < n implies #[trigger] grid.cells@[a * n + b].adj
                            == paper_neighbors(before, m as int, n as int, a, b) + b2i(listed(list@.take(t + 1), a, b)) by {
                            lemma_index(m as int, n as int, a, b);
                            if a * n + b == idx {
                                lemma_index_distinct(n as int, a, b, ka as int, kb as int);
                            }
                            if a == ka && b == kb {
                                assert(a * n + b == idx);
                            }
                        }
                    }
                    t = t + 1;
                }
                proof {
                    assert(list@.take(t as int) =~= list@);
                    assert forall|a: int, b: int| 0 <= a < m && 0 <= b < n implies #[trigger] grid.cells@[a * n + b].adj
                        == paper_neighbors(after, m as int, n as int, a, b) by {
                        lemma_change(before, after, m as int, n as int, i as int, j as int, a, b);
                        lemma_index(m as int, n as int, i as int, j as int);
                    }
                }
            } else {
                proof {
                    assert forall|a: int, b: int| 0 <= a < m && 0 <= b < n implies #[trigger] grid.cells@[a * n + b].adj
                        == paper_neighbors(after, m as int, n as int, a, b) by {
                        lemma_change(before, after, m as int, n as int, i as int, j as int, a, b);
                        lemma_index(m as int, n as int, i as int, j as int);
                    }
                }
            }
            j = j + 1;
        }
        proof {
            assert(i * n + n == (i + 1) * n) by (nonlinear_arith);
        }
        i = i + 1;
    }
    proof {
        assert(prefix_grid(g0, m * n) =~= Seq::new(g0.len(), |q: int| Cell { kind: g0[q].kind, adj: 0 }));
        assert forall|a: int, b: int| 0 <= a < m && 0 <= b < n implies #[trigger] grid.cells@[a * n + b].adj
            == paper_neighbors(g0, m as int, n as int, a, b) by {
            let h = prefix_grid(g0, m * n);
            assert forall|x: int, y: int| #![trigger paper(h, m as int, n as int, x, y)] paper(h, m as int, n as int, x, y) == paper(g0, m as int, n as int, x, y) by {
                if 0 <= x < m && 0 <= y < n {
                    lemma_index(m as int, n as int, x, y);
                }
            }
        }
    }
}

pub open spec fn kind_of(b: u8) -> Option<CellType> {
    if b == 46u8 {
        Some(CellType::Empty)
    } else if b == 64u8 {
        Some(CellType::Paper)
    } else {
        None
    }
}

impl CellType {
    /// `.` is empty, `@` a roll of paper.
    pub fn from_byte(b: u8) -> (r: Option<CellType>)
        ensures
            r == kind_of(b),
    {
        if b == 46u8 {
            Some(CellType::Empty)
        } else if b == 64u8 {
            Some(CellType::Paper)
        } else {
            None
        }
    }
}

/// The cells of the rows `ls`, row after row, with clear counts.
pub open spec fn grid_cells(ls: Seq<Seq<u8>>) -> Seq<Cell>
    decreases ls.len(),
{
    if ls.len() == 0 {
        Seq::empty()
    } else {
        grid_cells(ls.drop_last()) + ls.last().map_values(|b: u8| Cell { kind: kind_of(b).unwrap(), adj: 0 })
    }
}

/// Every row has `n` bytes, each `.` or `@`.
pub open spec fn valid_rows(ls: Seq<Seq<u8>>, n: int) -> bool {
    forall|i: int| 0 <= i < ls.len() ==> {
        &&& (#[trigger] ls[i]).len() == n
        &&& forall|j: int| 0 <= j < n ==> #[trigger] kind_of(ls[i][j]) is Some
    }
}

/// The grid that the text `s` describes: its cells, rows and columns.
pub open spec fn grid_of(s: Seq<u8>) -> Option<(Seq<Cell>, int, int)> {
    let ls = lines(s);
    let n = if ls.len() > 0 { ls[0].len() as int } else { 0 };
    if valid_rows(ls, n) {
        Some((grid_cells(ls), ls.len() as int, n))
    } else {
        None
    }
}

proof fn lemma_grid_cells_len(ls: Seq<Seq<u8>>, n: int)
    requires
        forall|i: int| 0 <= i < ls.len() ==> (#[trigger] ls[i]).len() == n,
        n >= 0,
    ensures
        grid_cells(ls).len() == ls.len() * n,
    decreases ls.len(),
{
    if ls.len() > 0 {
        let d = ls.drop_last();
        assert forall|i: int| 0 <= i < d.len() implies (#[trigger] d[i]).len() == n by {
            assert(d[i] == ls[i]);
        }
        lemma_grid_cells_len(d, n);
        assert(ls.last() == ls[ls.len() - 1]);
        assert((ls.len() - 1) * n + n == ls.len() * n) by (nonlinear_arith);
    }
}

/// Reads the grid of paper rolls.
pub fn read_matrix(input: &str) -> (r: Option<PaperGrid>)
    ensures
        grid_of(input.spec_bytes()) is None ==> r is None,
        grid_of(input.spec_bytes()) is Some ==> r is Some && r.unwrap().cells@ == grid_of(input.spec_bytes()).unwrap().0
            && r.unwrap().m == grid_of(input.spec_bytes()).unwrap().1 && r.unwrap().n == grid_of(input.spec_bytes()).unwrap().2,
        r is Some ==> r.unwrap().cells@.len() == r.unwrap().m * r.unwrap().n,
{
    let ls = split_lines(input.as_bytes());
    let ghost lv = lines(input.spec_bytes());
    assert(views(ls@).len() == ls@.len());
    let m = ls.len();
    let n: usize = if m > 0 { ls[0].len() } else { 0 };
    proof {
        if m > 0 {
            assert(ls@[0]@ == lv[0]);
        }
    }
    let mut cells: Vec<Cell> = Vec::new();
    let mut i: usize = 0;
    assert(lv.take(0) =~= Seq::<Seq<u8>>::empty());
    while i < m
        invariant
            views(ls@) == lv,
            lv == lines(input.spec_bytes()),
            ls@.len() == lv.len() == m,
            n == (if m > 0 { lv[0].len() as int } else { 0 }),
            i <= m,
            valid_rows(lv.take(i as int), n as int),
            cells@ == grid_cells(lv.take(i as int)),
        decreases m - i,
    {
        assert(ls@[i as int]@ == lv[i as int]);
        let line = ls[i].as_slice();
        if line.len() != n {
            assert(!valid_rows(lv, n as int)) by {
                assert(lv[i as int].len() != n);
            }
            return None;
        }
        let ghost before = cells@;
        let mut j: usize = 0;
        while j < n
            invariant
                line@ == lv[i as int],
                line@.len() == n,
                lv == lines(input.spec_bytes()),
                n == (if m > 0 { lv[0].len() as int } else { 0 }),
                i < m == lv.len(),
                j <= n,
                cells@ == before + lv[i as int].take(j as int).map_values(|b: u8| Cell { kind: kind_of(b).unwrap(), adj: 0 }),
                forall|q: int| 0 <= q < j ==> #[trigger] kind_of(lv[i as int][q]) is Some,
            decreases n - j,
        {
            let b = line[j];
            let t = match CellType::from_byte(b) {
                Some(t) => t,
                None => {
                    assert(!valid_rows(lv, n as int)) by {
                        assert(kind_of(lv[i as int][j as int]) is None);
                    }
                    return None;
                },
            };
            cells.push(Cell::new(t));
            assert(lv[i as int].take(j + 1).map_values(|b: u8| Cell { kind: kind_of(b).unwrap(), adj: 0 })
                =~= lv[i as int].take(j as int).map_values(|b: u8| Cell { kind: kind_of(b).unwrap(), adj: 0 }).push(
                Cell { kind: kind_of(b).unwrap(), adj: 0 },
            ));
            j = j + 1;
        }
        proof {
            assert(lv[i as int].take(n as int) =~= lv[i as int]);
            assert(lv.take(i + 1).drop_last() =~= lv.take(i as int));
            assert(lv.take(i + 1).last() == lv[i as int]);
            assert(valid_rows(lv.take(i + 1), n as int)) by {
                assert forall|q: int| 0 <= q < lv.take(i + 1).len() implies {
                    &&& (#[trigger] lv.take(i + 1)[q]).len() == n
                    &&& forall|j: int| 0 <= j < n ==> #[trigger] kind_of(lv.take(i + 1)[q][j]) is Some
                } by {
                    if q < i {
                        assert(lv.take(i + 1)[q] == lv.take(i as int)[q]);
                    }
                }
            }
        }
        i = i + 1;
    }
    proof {
        assert(lv.take(m as int) =~= lv);
        lemma_grid_cells_len(lv, n as int);
    }
    Some(PaperGrid { cells, m, n })
}

/// The paper rolls before `(i, j)`, in reading order, with fewer than four
/// rolls around them.
pub open spec fn accessible(g: Seq<Cell>, m: int, n: int, i: int, j: int) -> nat
    decreases i, j,
{
    if i <= 0 && j <= 0 {
        0
    } else if j <= 0 {
        accessible(g, m, n, i - 1, n)
    } else {
        accessible(g, m, n, i, j - 1) + if paper(g, m, n, i, j - 1) && paper_neighbors(g, m, n, i, j - 1) < 4 {
            1nat
        } else {
            0nat
        }
    }
}

/// The number of paper rolls of the grid in `input` with fewer than four
/// rolls around them.
pub fn part_one(input: &str) -> (r: Option<u64>)
    ensures
        grid_of(input.spec_bytes()) is None ==> r is None,
        grid_of(input.spec_bytes()) is Some ==> {
            let (g, m, n) = grid_of(input.spec_bytes()).unwrap();
            (m <= i64::MAX && n <= i64::MAX) ==> r == Some(accessible(g, m, n, m, 0) as u64)
        },
{
    let mut grid = match read_matrix(input) {
        Some(g) => g,
        None => {
            return None;
        },
    };
    if grid.m as u128 > i64::MAX as u128 || grid.n as u128 > i64::MAX as u128 {
        return None;
    }
    let ghost g0 = grid.cells@;
    let total = grid.cells.len();
    count_adjacent(&mut grid);
    let m = grid.m;
    let n = grid.n;
    let mut count: u64 = 0;
    let mut i: usize = 0;
    while i < m
        invariant
            grid.m == m,
            grid.n == n,
            grid.cells@.len() == g0.len() == m * n,
            forall|q: int| 0 <= q < g0.len() ==> (#[trigger] grid.cells@[q]).kind == g0[q].kind,
            forall|a: int, b: int| 0 <= a < m && 0 <= b < n ==> #[trigger] grid.cells@[a * n + b].adj
                == paper_neighbors(g0, m as int, n as int, a, b),
            i <= m,
            total == m * n,
            count == accessible(g0, m as int, n as int, i as int, 0),
            count <= i * n,
        decreases m - i,
    {
        let mut j: usize = 0;
        proof {
            if i > 0 {
                assert(accessible(g0, m as int, n as int, i as int, 0) == accessible(g0, m as int, n as int, i - 1, n as int));
            }
        }
        while j < n
            invariant
                grid.m == m,
                grid.n == n,
                grid.cells@.len() == g0.len() == m * n,
                forall|q: int| 0 <= q < g0.len() ==> (#[trigger] grid.cells@[q]).kind == g0[q].kind,
                forall|a: int, b: int| 0 <= a < m && 0 <= b < n ==> #[trigger] grid.cells@[a * n + b].adj
                    == paper_neighbors(g0, m as int, n as int, a, b),
                i < m,
                j <= n,
                total == m * n,
                count == accessible(g0, m as int, n as int, i as int, j as int),
                count <= i * n + j,
            decreases n - j,
        {
            proof {
                lemma_index(m as int, n as int, i as int, j as int);
                if j == 0 && i > 0 {
                    assert(accessible(g0, m as int, n as int, i as int, 0) == accessible(g0, m as int, n as int, i - 1, n as int));
                }
            }
            let c = grid.cells[i * n + j];
            if c.kind == CellType::Paper && c.adj < 4 {
                count = count + 1;
            }
            j = j + 1;
        }
        proof {
            assert(i * n + n == (i + 1) * n) by (nonlinear_arith);
            assert(accessible(g0, m as int, n as int, i + 1, 0) == accessible(g0, m as int, n as int, i as int, n as int));
        }
        i = i + 1;
    }
    Some(count)
}

/// One removal pass from `(i, j)` on, in reading order: each roll with
/// fewer than four rolls around it at the time it is reached is removed.
/// Returns the grid after the pass and the number removed.
pub open spec fn sweep(g: Seq<Cell>, m: int, n: int, i: int, j: int) -> (Seq<Cell>, nat)
    decreases (m - i) as nat, (n - j) as nat,
{
    if i >= m || i < 0 || n <= 0 {
        (g, 0)
    } else if j >= n || j < 0 {
        if j < 0 { (g, 0) } else { sweep(g, m, n, i + 1, 0) }
    } else if paper(g, m, n, i, j) && paper_neighbors(g, m, n, i, j) < 4 {
        let r = sweep(g.update(i * n + j, Cell { kind: CellType::Empty, adj: g[i * n + j].adj }), m, n, i, j + 1);
        (r.0, r.1 + 1)
    } else {
        sweep(g, m, n, i, j + 1)
    }
}

/// The rolls removed by passes repeated until one removes none, with at
/// most `fuel` passes.
pub open spec fn removal(g: Seq<Cell>, m: int, n: int, fuel: nat) -> nat
    decreases fuel,
{
    if fuel == 0 {
        0
    } else {
        let r = sweep(g, m, n, 0, 0);
        if r.1 == 0 { 0 } else { r.1 + removal(r.0, m, n, (fuel - 1) as nat) }
    }
}

/// The rolls among the first `k` cells.
pub open spec fn paper_count(g: Seq<Cell>, k: int) -> nat
    decreases k,
{
    if k <= 0 {
        0
    } else {
        paper_count(g, k - 1) + if g[k - 1].kind == CellType::Paper { 1nat } else { 0nat }
    }
}

proof fn lemma_paper_count_bound(g: Seq<Cell>, k: int)
    requires
        k >= 0,
    ensures
        paper_count(g, k) <= k,
    decreases k,
{
    if k > 0 {
        lemma_paper_count_bound(g, k - 1);
    }
}

proof fn lemma_paper_count_remove(g: Seq<Cell>, q: int, c: Cell, k: int)
    requires
        0 <= q < g.len(),
        g[q].kind == CellType::Paper,
        c.kind == CellType::Empty,
        0 <= k <= g.len(),
    ensures
        paper_count(g.update(q, c), k) + (if q < k { 1int } else { 0int }) == paper_count(g, k),
    decreases k,
{
    if k > 0 {
        lemma_paper_count_remove(g, q, c, k - 1);
    }
}

proof fn lemma_sweep_count(g: Seq<Cell>, m: int, n: int, i: int, j: int)
    requires
        g.len() == m * n,
        0 <= i,
        0 <= j,
        m >= 0,
    ensures
        sweep(g, m, n, i, j).0.len() == g.len(),
        paper_count(sweep(g, m, n, i, j).0, g.len() as int) + sweep(g, m, n, i, j).1 == paper_count(g, g.len() as int),
    decreases (m - i) as nat, (n - j) as nat,
{
    if i >= m || n <= 0 {
    } else if j >= n {
        lemma_sweep_count(g, m, n, i + 1, 0);
    } else if paper(g, m, n, i, j) && paper_neighbors(g, m, n, i, j) < 4 {
        lemma_index(m, n, i, j);
        let c = Cell { kind: CellType::Empty, adj: g[i * n + j].adj };
        let h = g.update(i * n + j, c);
        lemma_paper_count_remove(g, i * n + j, c, g.len() as int);
        lemma_sweep_count(h, m, n, i, j + 1);
    } else {
        lemma_sweep_count(g, m, n, i, j + 1);
    }
}

proof fn lemma_removal_bound(g: Seq<Cell>, m: int, n: int, fuel: nat)
    requires
        g.len() == m * n,
        m >= 0,
    ensures
        removal(g, m, n, fuel) <= paper_count(g, g.len() as int),
    decreases fuel,
{
    if fuel > 0 {
        lemma_sweep_count(g, m, n, 0, 0);
        let r = sweep(g, m, n, 0, 0);
        if r.1 != 0 {
            lemma_removal_bound(r.0, m, n, (fuel - 1) as nat);
        }
    }
}

proof fn lemma_same_kinds_neighbors(g: Seq<Cell>, h: Seq<Cell>, m: int, n: int, a: int, b: int)
    requires
        g.len() == h.len() == m * n,
        forall|q: int| 0 <= q < g.len() ==> (#[trigger] g[q]).kind == h[q].kind,
    ensures
        paper_neighbors(g, m, n, a, b) == paper_neighbors(h, m, n, a, b),
        paper(g, m, n, a, b) == paper(h, m, n, a, b),
{
    assert forall|x: int, y: int| #![trigger paper(g, m, n, x, y)] paper(g, m, n, x, y) == paper(h, m, n, x, y) by {
        if 0 <= x < m && 0 <= y < n {
            lemma_index(m, n, x, y);
        }
    }
}

/// A pass reads only the kinds of the cells.
proof fn lemma_sweep_kinds(g: Seq<Cell>, h: Seq<Cell>, m: int, n: int, i: int, j: int)
    requires
        g.len() == h.len() == m * n,
        forall|q: int| 0 <= q < g.len() ==> (#[trigger] g[q]).kind == h[q].kind,
        0 <= i,
        0 <= j,
        m >= 0,
    ensures
        sweep(g, m, n, i, j).1 == sweep(h, m, n, i, j).1,
        sweep(g, m, n, i, j).0.len() == g.len(),
        sweep(h, m, n, i, j).0.len() == g.len(),
        forall|q: int| 0 <= q < g.len() ==> (#[trigger] sweep(g, m, n, i, j).0[q]).kind == sweep(h, m, n, i, j).0[q].kind,
    decreases (m - i) as nat, (n - j) as nat,
{
    if i >= m || n <= 0 {
    } else if j >= n {
        lemma_sweep_kinds(g, h, m, n, i + 1, 0);
    } else {
        lemma_same_kinds_neighbors(g, h, m, n, i, j);
        if paper(g, m, n, i, j) && paper_neighbors(g, m, n, i, j) < 4 {
            lemma_index(m, n, i, j);
            let g2 = g.update(i * n + j, Cell { kind: CellType::Empty, adj: g[i * n + j].adj });
            let h2 = h.update(i * n + j, Cell { kind: CellType::Empty, adj: h[i * n + j].adj });
            assert forall|q: int| 0 <= q < g2.len() implies (#[trigger] g2[q]).kind == h2[q].kind by {}
            lemma_sweep_kinds(g2, h2, m, n, i, j + 1);
        } else {
            lemma_sweep_kinds(g, h, m, n, i, j + 1);
        }
    }
}

/// One removal pass over the grid; returns how many rolls it removed.
pub fn count_and_remove(grid: &mut PaperGrid) -> (r: u64)
    requires
        old(grid).cells@.len() == old(grid).m * old(grid).n,
        old(grid).m <= i64::MAX,
        old(grid).n <= i64::MAX,
        forall|a: int, b: int| 0 <= a < old(grid).m && 0 <= b < old(grid).n ==> #[trigger] old(grid).cells@[a * old(grid).n + b].adj
            == paper_neighbors(old(grid).cells@, old(grid).m as int, old(grid).n as int, a, b),
    ensures
        final(grid).m == old(grid).m,
        final(grid).n == old(grid).n,
        final(grid).cells@.len() == old(grid).cells@.len(),
        ({
            let (t, c) = sweep(old(grid).cells@, old(grid).m as int, old(grid).n as int, 0, 0);
            &&& r == c
            &&& t.len() == old(grid).cells@.len()
            &&& forall|q: int| 0 <= q < t.len() ==> (#[trigger] final(grid).cells@[q]).kind == t[q].kind
            &&& forall|a: int, b: int| 0 <= a < old(grid).m && 0 <= b < old(grid).n ==> #[trigger] final(grid).cells@[a * old(grid).n + b].adj
                == paper_neighbors(t, old(grid).m as int, old(grid).n as int, a, b)
        }),
{
    let ghost s0 = grid.cells@;
    let m = grid.m;
    let n = grid.n;
    let total = grid.cells.len();
    let ghost fin = sweep(s0, m as int, n as int, 0, 0);
    proof {
        lemma_sweep_count(s0, m as int, n as int, 0, 0);
        lemma_paper_count_bound(s0, s0.len() as int);
    }
    let ghost mut st = s0;
    let mut count: u64 = 0;
    let mut i: usize = 0;
    while i < m
        invariant
            grid.m == m,
            grid.n == n,
            total == grid.cells@.len() == st.len() == m * n,
            m <= i64::MAX,
            n <= i64::MAX,
            i <= m,
            fin == sweep(s0, m as int, n as int, 0, 0),
            fin.1 <= total,
            forall|q: int| 0 <= q < total ==> (#[trigger] grid.cells@[q]).kind == st[q].kind,
            forall|a: int, b: int| 0 <= a < m && 0 <= b < n ==> #[trigger] grid.cells@[a * n + b].adj
                == paper_neighbors(st, m as int, n as int, a, b),
            fin.0 == sweep(st, m as int, n as int, i as int, 0).0,
            fin.1 == count + sweep(st, m as int, n as int, i as int, 0).1,
        decreases m - i,
    {
        let mut j: usize = 0;
        while j < n
            invariant
                grid.m == m,
                grid.n == n,
                total == grid.cells@.len() == st.len() == m * n,
                m <= i64::MAX,
                n <= i64::MAX,
                i < m,
                j <= n,
                fin.1 <= total,
                forall|q: int| 0 <= q < total ==> (#[trigger] grid.cells@[q]).kind == st[q].kind,
                forall|a: int, b: int| 0 <= a < m && 0 <= b < n ==> #[trigger] grid.cells@[a * n + b].adj
                    == paper_neighbors(st, m as int, n as int, a, b),
                fin.0 == sweep(st, m as int, n as int, i as int, j as int).0,
                fin.1 == count + sweep(st, m as int, n as int, i as int, j as int).1,
            decreases n - j,
        {
            proof { lemma_index(m as int, n as int, i as int, j as int); }
            let k = i * n + j;
            let c = grid.cells[k];
            if c.kind == CellType::Paper && c.adj < 4 {
                let ghost before = st;
                let ghost after = st.update(k as int, Cell { kind: CellType::Empty, adj: st[k as int].adj });
                grid.cells.set(k, Cell { kind: CellType::Empty, adj: c.adj });
                proof {
                    assert(sweep(before, m as int, n as int, i as int, j as int) == ({
                        let r = sweep(after, m as int, n as int, i as int, j + 1);
                        (r.0, r.1 + 1)
                    }));
                    lemma_sweep_count(after, m as int, n as int, i as int, j + 1);
                }
                count = count + 1;
                let list = adjs(i, j, m, n);
                let mut t: usize = 0;
                proof {
                    assert(list@.take(0) =~= Seq::<(usize, usize)>::empty());
                    assert forall|a: int, b: int| !#[trigger] listed(list@.take(0), a, b) by {}
                    assert forall|a: int, b: int| 0 <= a < m && 0 <= b < n implies #[trigger] grid.cells@[a * n + b].adj
                        == paper_neighbors(before, m as int, n as int, a, b) - b2i(listed(list@.take(0), a, b)) by {
                        lemma_index(m as int, n as int, a, b);
                    }
                    assert forall|q: int| 0 <= q < m * n && q != i * n + j implies (#[trigger] after[q]).kind == before[q].kind by {}
                }
                while t < list.len()
                    invariant
                        grid.m == m,
                        grid.n == n,
                        total == grid.cells@.len() == before.len() == after.len() == m * n,
                        i < m,
                        j < n,
                        k == i * n + j,
                        after == before.update(k as int, Cell { kind: CellType::Empty, adj: before[k as int].adj }),
                        forall|q: int| 0 <= q < m * n && q != i * n + j ==> (#[trigger] after[q]).kind == before[q].kind,
                        paper(before, m as int, n as int, i as int, j as int),
                        distinct(list@),
                        forall|a: int, b: int| #[trigger] listed(list@, a, b) == (0 <= a < m && 0 <= b < n && touches(a, b, i as int, j as int)),
                        t <= list@.len(),
                        forall|q: int| 0 <= q < total ==> (#[trigger] grid.cells@[q]).kind == after[q].kind,
                        forall|a: int, b: int| 0 <= a < m && 0 <= b < n ==> #[trigger] grid.cells@[a * n + b].adj
                            == paper_neighbors(before, m as int, n as int, a, b) - b2i(listed(list@.take(t as int), a, b)),
                    decreases list@.len() - t,
                {
                    let (ka, kb) = list[t];
                    assert(listed(list@, ka as int, kb as int));
                    proof { lemma_index(m as int, n as int, ka as int, kb as int); }
                    let idx = ka * n + kb;
                    let cc = grid.cells[idx];
                    proof {
                        let w0 = list@.take(t as int);
                        assert(!listed(w0, ka as int, kb as int)) by {
                            if listed(w0, ka as int, kb as int) {
                                let s = choose|s: int| 0 <= s < w0.len() && w0[s].0 == ka && w0[s].1 == kb;
                                assert(list@[s] == w0[s]);
                                assert(list@[s] == list@[t as int]);
                            }
                        }
                        lemma_change(before, after, m as int, n as int, i as int, j as int, ka as int, kb as int);
                        lemma_index(m as int, n as int, i as int, j as int);
                        assert(!paper(after, m as int, n as int, i as int, j as int));
                    }
                    grid.cells.set(idx, Cell { kind: cc.kind, adj: cc.adj - 1 });
                    proof {
                        let w1 = list@.take(t + 1);
                        let w0 = list@.take(t as int);
                        assert forall|a: int, b: int| #[trigger] listed(w1, a, b) == (listed(w0, a, b) || (a == ka && b == kb)) by {
                            if listed(w1, a, b) {
                                let s = choose|s: int| 0 <= s < w1.len() && w1[s].0 == a && w1[s].1 == b;
                                if s < t {
                                    assert(w0[s] == w1[s]);
                                }
                            }
                            if listed(w0, a, b) {
                                let s = choose|s: int| 0 <= s < w0.len() && w0[s].0 == a && w0[s].1 == b;
                                assert(w1[s] == w0[s]);
                            }
                            if a == ka && b == kb {
                                assert(w1[t as int] == list@[t as int]);
                            }
                        }
                        assert forall|a: int, b: int| 0 <= a < m && 0 <= b < n implies #[trigger] grid.cells@[a * n + b].adj
                            == paper_neighbors(before, m as int, n as int, a, b) - b2i(listed(list@.take(t + 1), a, b)) by {
                            lemma_index(m as int, n as int, a, b);
                            if a * n + b == idx {
                                lemma_index_distinct(n as int, a, b, ka as int, kb as int);
                            }
                            if a == ka && b == kb {
                                assert(a * n + b == idx);
                            }
                        }
                    }
                    t = t + 1;
                }
                proof {
                    assert(list@.take(t as int) =~= list@);
                    assert forall|a: int, b: int| 0 <= a < m && 0 <= b < n implies #[trigger] grid.cells@[a * n + b].adj
                        == paper_neighbors(after, m as int, n as int, a, b) by {
                        lemma_change(before, after, m as int, n as int, i as int, j as int, a, b);
                        lemma_index(m as int, n as int, i as int, j as int);
                    }
                    st = after;
                }
            } else {
                proof {
                    assert(grid.cells@[k as int] == c);
                }
            }
            j = j + 1;
        }
        proof {
            assert(i * n + n == (i + 1) * n) by (nonlinear_arith);
        }
        i = i + 1;
    }
    count
}

/// The number of rolls removed when passes are repeated until one removes
/// none; a pass removes, in reading order, each roll with fewer than four
/// rolls around it at that moment.
pub fn part_two(input: &str) -> (r: Option<u64>)
    ensures
        grid_of(input.spec_bytes()) is None ==> r is None,
        grid_of(input.spec_bytes()) is Some ==> {
            let (g, m, n) = grid_of(input.spec_bytes()).unwrap();
            (m <= i64::MAX && n <= i64::MAX) ==> r == Some(removal(g, m, n, paper_count(g, g.len() as int) + 1) as u64)
        },
{
    let mut grid = match read_matrix(input) {
        Some(g) => g,
        None => {
            return None;
        },
    };
    if grid.m as u128 > i64::MAX as u128 || grid.n as u128 > i64::MAX as u128 {
        return None;
    }
    let ghost g0 = grid.cells@;
    let ghost m = grid.m as int;
    let ghost n = grid.n as int;
    let ghost big = paper_count(g0, g0.len() as int) + 1;
    let total_len = grid.cells.len();
    count_adjacent(&mut grid);
    let ghost mut st = g0;
    let ghost mut fuel: nat = big;
    proof {
        lemma_removal_bound(g0, m, n, big);
        lemma_paper_count_bound(g0, g0.len() as int);
        assert forall|a: int, b: int| 0 <= a < m && 0 <= b < n implies #[trigger] grid.cells@[a * n + b].adj
            == paper_neighbors(grid.cells@, m, n, a, b) by {
            assert forall|x: int, y: int| #![trigger paper(grid.cells@, m, n, x, y)] paper(grid.cells@, m, n, x, y) == paper(g0, m, n, x, y) by {
                if 0 <= x < m && 0 <= y < n {
                    lemma_index(m, n, x, y);
                }
            }
        }
    }
    let mut count: u64 = 0;
    let mut done = false;
    while !done
        invariant
            grid.m == m,
            grid.n == n,
            m <= i64::MAX,
            n <= i64::MAX,
            grid.cells@.len() == g0.len() == st.len() == m * n == total_len,
            forall|q: int| 0 <= q < st.len() ==> (#[trigger] grid.cells@[q]).kind == st[q].kind,
            forall|a: int, b: int| 0 <= a < m && 0 <= b < n ==> #[trigger] grid.cells@[a * n + b].adj
                == paper_neighbors(grid.cells@, m, n, a, b),
            big == paper_count(g0, g0.len() as int) + 1,
            removal(g0, m, n, big) <= total_len,
            !done ==> fuel >= paper_count(st, st.len() as int) + 1,
            count <= removal(g0, m, n, big),
            !done ==> count + removal(st, m, n, fuel) == removal(g0, m, n, big),
            done ==> count == removal(g0, m, n, big),
        decreases paper_count(st, st.len() as int) + if done { 0int } else { 1int },
    {
        let ghost before_cells = grid.cells@;
        proof {
            lemma_sweep_count(st, m, n, 0, 0);
            lemma_sweep_kinds(before_cells, st, m, n, 0, 0);
            lemma_removal_bound(st, m, n, fuel);
        }
        let next = count_and_remove(&mut grid);
        proof {
            let t = sweep(before_cells, m, n, 0, 0).0;
            let t2 = sweep(st, m, n, 0, 0).0;
            assert forall|a: int, b: int| 0 <= a < m && 0 <= b < n implies #[trigger] grid.cells@[a * n + b].adj
                == paper_neighbors(grid.cells@, m, n, a, b) by {
                lemma_same_kinds_neighbors(t, grid.cells@, m, n, a, b);
            }
            assert(removal(st, m, n, fuel) as int == if next == 0 { 0int } else { next + removal(t2, m, n, (fuel - 1) as nat) });
            if next != 0 {
                lemma_removal_bound(t2, m, n, (fuel - 1) as nat);
            }
        }
        proof {
            st = sweep(st, m, n, 0, 0).0;
        }
        if next == 0 {
            done = true;
        } else {
            count = count + next;
            proof {
                fuel = (fuel - 1) as nat;
            }
        }
    }
    Some(count)
}

} // verus!
