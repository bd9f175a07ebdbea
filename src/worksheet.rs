use vstd::prelude::*;
use vstd::string::StringSliceAdditionalSpecFns;
use crate::text::{lines, views, split, unsigned_value, is_digit, split_lines, split_bytes, parse_u64};

verus! {

/// The operation of one problem of the worksheet.
#[derive(Debug, Clone, Copy, PartialEq, Eq, Structural)]
pub enum Op {
    Add,
    Mul,
}

/// The pieces of `ps` that are not empty, in order.
pub open spec fn nonempty(ps: Seq<Seq<u8>>) -> Seq<Seq<u8>>
    decreases ps.len(),
{
    if ps.len() == 0 {
        ps
    } else if ps.last().len() > 0 {
        nonempty(ps.drop_last()).push(ps.last())
    } else {
        nonempty(ps.drop_last())
    }
}

/// The words of a line: its runs of bytes between spaces.
pub open spec fn words_of(line: Seq<u8>) -> Seq<Seq<u8>> {
    nonempty(split(line, 32u8))
}

/// The numbers of a line whose words are all numbers.
pub open spec fn row_of(line: Seq<u8>) -> Option<Seq<u64>> {
    let w = words_of(line);
    if forall|t: int| 0 <= t < w.len() ==> #[trigger] unsigned_value(w[t]) is Some {
        Some(Seq::new(w.len(), |t: int| unsigned_value(w[t]).unwrap()))
    } else {
        None
    }
}

/// The operation a word names by its first byte.
pub open spec fn op_of(w: Seq<u8>) -> Option<Op> {
    if w.len() > 0 && w[0] == 43u8 {
        Some(Op::Add)
    } else if w.len() > 0 && w[0] == 42u8 {
        Some(Op::Mul)
    } else {
        None
    }
}

/// The operations of a line whose words all name one.
pub open spec fn ops_of(line: Seq<u8>) -> Option<Seq<Op>> {
    let w = words_of(line);
    if forall|t: int| 0 <= t < w.len() ==> #[trigger] op_of(w[t]) is Some {
        Some(Seq::new(w.len(), |t: int| op_of(w[t]).unwrap()))
    } else {
        None
    }
}

/// The rows of numbers and the operations of a worksheet: a line of numbers
/// is a row, any other line lists operations.
pub open spec fn sheet_of(ls: Seq<Seq<u8>>) -> Option<(Seq<Seq<u64>>, Seq<Op>)>
    decreases ls.len(),
{
    if ls.len() == 0 {
        Some((Seq::empty(), Seq::empty()))
    } else {
        match sheet_of(ls.drop_last()) {
            None => None,
            Some(prev) => match row_of(ls.last()) {
                Some(r) => Some((prev.0.push(r), prev.1)),
                None => match ops_of(ls.last()) {
                    Some(o) => Some((prev.0, prev.1 + o)),
                    None => None,
                },
            },
        }
    }
}

pub open spec fn apply(op: Op, a: int, b: int) -> int {
    match op {
        Op::Add => a + b,
        Op::Mul => a * b,
    }
}

pub open spec fn identity(op: Op) -> int {
    match op {
        Op::Add => 0,
        Op::Mul => 1,
    }
}

/// Folds `op` over the values `vals[0 .. i]`; `None` once a partial result
/// exceeds `u64`.
pub open spec fn fold_values(vals: Seq<u64>, op: Op, i: int) -> Option<u64>
    decreases i,
{
    if i <= 0 {
        Some(identity(op) as u64)
    } else {
        match fold_values(vals, op, i - 1) {
            None => None,
            Some(a) => {
                let v = apply(op, a as int, vals[i - 1] as int);
                if 0 <= v <= u64::MAX { Some(v as u64) } else { None }
            },
        }
    }
}

/// Column `j` of `rows`.
pub open spec fn column(rows: Seq<Seq<u64>>, j: int) -> Seq<u64> {
    Seq::new(rows.len(), |i: int| rows[i][j])
}

/// The sum of the results of the problems `0 .. j`, problem `q` applying
/// `ops[q]` to column `q`; `None` once a partial result exceeds `u64`.
pub open spec fn sheet_total(rows: Seq<Seq<u64>>, ops: Seq<Op>, j: int) -> Option<u64>
    decreases j,
{
    if j <= 0 {
        Some(0)
    } else {
        match (sheet_total(rows, ops, j - 1), fold_values(column(rows, j - 1), ops[j - 1], rows.len() as int)) {
            (Some(a), Some(b)) => if a + b <= u64::MAX { Some((a + b) as u64) } else { None },
            _ => None,
        }
    }
}

/// The grand total of the worksheet in `s`: `None` when it cannot be read,
/// has no row, has a row or an operation list shorter than the first row,
/// or a result exceeds `u64`.
pub open spec fn grand_total(s: Seq<u8>) -> Option<u64> {
    match sheet_of(lines(s)) {
        None => None,
        Some(sheet) => {
            let rows = sheet.0;
            let ops = sheet.1;
            if rows.len() == 0 {
                None
            } else {
                let n = rows[0].len();
                if ops.len() < n || exists|i: int| 0 <= i < rows.len() && #[trigger] rows[i].len() < n {
                    None
                } else {
                    sheet_total(rows, ops, n as int)
                }
            }
        }
    }
}

/// The words of one line.
pub fn words(line: &[u8]) -> (r: Vec<Vec<u8>>)
    ensures
        views(r@) == words_of(line@),
{
    let pieces = split_bytes(line, 32u8);
    let ghost pv = split(line@, 32u8);
    assert(views(pieces@).len() == pieces@.len());
    let mut out: Vec<Vec<u8>> = Vec::new();
    let mut i: usize = 0;
    assert(pv.take(0) =~= Seq::<Seq<u8>>::empty());
    while i < pieces.len()
        invariant
            views(pieces@) == pv,
            pieces@.len() == pv.len(),
            i <= pv.len(),
            views(out@) == nonempty(pv.take(i as int)),
        decreases pv.len() - i,
    {
        assert(pieces@[i as int]@ == pv[i as int]);
        assert(pv.take(i + 1).drop_last() =~= pv.take(i as int));
        if pieces[i].len() > 0 {
            let ghost before = out@;
            out.push(pieces[i].clone());
            assert(views(out@) =~= views(before).push(pv[i as int]));
        }
        i = i + 1;
    }
    assert(pv.take(i as int) =~= pv);
    out
}

/// The operation that one word names.
pub fn parse_op(w: &[u8]) -> (r: Option<Op>)
    ensures
        r == op_of(w@),
{
    if w.len() > 0 && w[0] == 43u8 {
        Some(Op::Add)
    } else if w.len() > 0 && w[0] == 42u8 {
        Some(Op::Mul)
    } else {
        None
    }
}

/// Reads the rows of numbers and the operations of a worksheet.
pub fn read_sheet(input: &str) -> (r: Option<(Vec<Vec<u64>>, Vec<Op>)>)
    ensures
        sheet_of(lines(input.spec_bytes())) is None ==> r is None,
        sheet_of(lines(input.spec_bytes())) is Some ==> r is Some
            && r.unwrap().0@.map_values(|v: Vec<u64>| v@) == sheet_of(lines(input.spec_bytes())).unwrap().0
            && r.unwrap().1@ == sheet_of(lines(input.spec_bytes())).unwrap().1,
{
    let ls = split_lines(input.as_bytes());
    let ghost lv = lines(input.spec_bytes());
    assert(views(ls@).len() == ls@.len());
    let mut rows: Vec<Vec<u64>> = Vec::new();
    let mut ops: Vec<Op> = Vec::new();
    let mut i: usize = 0;
    assert(lv.take(0) =~= Seq::<Seq<u8>>::empty());
    while i < ls.len()
        invariant
            views(ls@) == lv,
            lv == lines(input.spec_bytes()),
            ls@.len() == lv.len(),
            i <= lv.len(),
            sheet_of(lv.take(i as int)) is Some,
            rows@.map_values(|v: Vec<u64>| v@) == sheet_of(lv.take(i as int)).unwrap().0,
            ops@ == sheet_of(lv.take(i as int)).unwrap().1,
        decreases lv.len() - i,
    {
        assert(ls@[i as int]@ == lv[i as int]);
        assert(lv.take(i + 1).drop_last() =~= lv.take(i as int));
        assert(lv.take(i + 1).last() == lv[i as int]);
        let ws = words(ls[i].as_slice());
        let ghost wv = words_of(lv[i as int]);
        assert(views(ws@).len() == ws@.len());
        let mut row: Vec<u64> = Vec::new();
        let mut all_numbers = true;
        let mut t: usize = 0;
        while t < ws.len()
            invariant
                views(ws@) == wv,
                ws@.len() == wv.len(),
                t <= wv.len(),
                all_numbers ==> row@.len() == t,
                all_numbers ==> forall|u: int| 0 <= u < t ==> #[trigger] unsigned_value(wv[u]) == Some(row@[u]),
                !all_numbers ==> exists|u: int| 0 <= u < wv.len() && #[trigger] unsigned_value(wv[u]) is None,
            decreases wv.len() - t,
        {
            assert(ws@[t as int]@ == wv[t as int]);
            match parse_u64(ws[t].as_slice()) {
                Some(v) => {
                    if all_numbers {
                        row.push(v);
                    }
                },
                None => {
                    all_numbers = false;
                },
            }
            t = t + 1;
        }
        let ghost prev_rows = rows@.map_values(|v: Vec<u64>| v@);
        if all_numbers {
            assert(row@ =~= row_of(lv[i as int]).unwrap());
            let ghost before = rows@;
            rows.push(row);
            assert(rows@.map_values(|v: Vec<u64>| v@) =~= prev_rows.push(row_of(lv[i as int]).unwrap()));
        } else {
            assert(row_of(lv[i as int]) is None);
            let ghost before_ops = ops@;
            let mut t: usize = 0;
            while t < ws.len()
                invariant
                    views(ws@) == wv,
                    ws@.len() == wv.len(),
                    t <= wv.len(),
                    ops@.len() == before_ops.len() + t,
                    forall|u: int| 0 <= u < before_ops.len() ==> #[trigger] ops@[u] == before_ops[u],
                    forall|u: int| 0 <= u < t ==> #[trigger] op_of(wv[u]) == Some(ops@[before_ops.len() + u]),
                    i < lv.len(),
                    lv == lines(input.spec_bytes()),
                    wv == words_of(lv[i as int]),
                    sheet_of(lv.take(i as int)) is Some,
                    row_of(lv[i as int]) is None,
                    lv.take(i + 1).drop_last() == lv.take(i as int),
                    lv.take(i + 1).last() == lv[i as int],
                decreases wv.len() - t,
            {
                assert(ws@[t as int]@ == wv[t as int]);
                match parse_op(ws[t].as_slice()) {
                    Some(o) => {
                        ops.push(o);
                    },
                    None => {
                        assert(ops_of(lv[i as int]) is None);
                        assert(sheet_of(lv.take(i + 1)) is None);
                        proof { lemma_sheet_none_extends(lv, i + 1); }
                        assert(lv.take(lv.len() as int) =~= lv);
                        return None;
                    },
                }
                t = t + 1;
            }
            assert(ops@ =~= before_ops + ops_of(lv[i as int]).unwrap());
        }
        i = i + 1;
    }
    assert(lv.take(i as int) =~= lv);
    Some((rows, ops))
}

proof fn lemma_sheet_none_extends(ls: Seq<Seq<u8>>, k: int)
    requires
        0 <= k <= ls.len(),
        sheet_of(ls.take(k)) is None,
    ensures
        sheet_of(ls) is None,
    decreases ls.len() - k,
{
    if k < ls.len() {
        assert(ls.take(k + 1).drop_last() =~= ls.take(k));
        lemma_sheet_none_extends(ls, k + 1);
    } else {
        assert(ls.take(k) =~= ls);
    }
}

pub open spec fn rows_view(rows: Seq<Vec<u64>>) -> Seq<Seq<u64>> {
    rows.map_values(|v: Vec<u64>| v@)
}

/// Applies `op` down column `j`.
pub fn fold_column(rows: &Vec<Vec<u64>>, j: usize, op: Op) -> (r: Option<u64>)
    requires
        forall|i: int| 0 <= i < rows@.len() ==> j < (#[trigger] rows@[i])@.len(),
    ensures
        r == fold_values(column(rows_view(rows@), j as int), op, rows@.len() as int),
{
    let ghost col = column(rows_view(rows@), j as int);
    let mut acc: u64 = match op {
        Op::Add => 0,
        Op::Mul => 1,
    };
    let mut i: usize = 0;
    while i < rows.len()
        invariant
            i <= rows@.len(),
            col == column(rows_view(rows@), j as int),
            forall|q: int| 0 <= q < rows@.len() ==> j < (#[trigger] rows@[q])@.len(),
            fold_values(col, op, i as int) == Some(acc),
        decreases rows@.len() - i,
    {
        let v = rows[i][j];
        assert(col[i as int] == v);
        let next = match op {
            Op::Add => acc.checked_add(v),
            Op::Mul => acc.checked_mul(v),
        };
        match next {
            Some(a) => {
                acc = a;
            },
            None => {
                proof { lemma_fold_none_extends(col, op, i + 1, rows@.len() as int); }
                return None;
            },
        }
        i = i + 1;
    }
    Some(acc)
}

proof fn lemma_fold_none_extends(vals: Seq<u64>, op: Op, i: int, k: int)
    requires
        1 <= i <= k,
        fold_values(vals, op, i) is None,
    ensures
        fold_values(vals, op, k) is None,
    decreases k - i,
{
    if i < k {
        lemma_fold_none_extends(vals, op, i, k - 1);
    }
}

proof fn lemma_total_none_extends(rows: Seq<Seq<u64>>, ops: Seq<Op>, j: int, k: int)
    requires
        1 <= j <= k,
        sheet_total(rows, ops, j) is None,
    ensures
        sheet_total(rows, ops, k) is None,
    decreases k - j,
{
    if j < k {
        lemma_total_none_extends(rows, ops, j, k - 1);
    }
}

/// The grand total of the worksheet in `input`, reading each row left to
/// right.
pub fn part_one(input: &str) -> (r: Option<u64>)
    ensures
        r == grand_total(input.spec_bytes()),
{
    let (rows, ops) = match read_sheet(input) {
        Some(p) => p,
        None => {
            return None;
        },
    };
    let ghost rv = rows_view(rows@);
    assert(rv.len() == rows@.len());
    if rows.len() == 0 {
        return None;
    }
    let n = rows[0].len();
    assert(rv[0].len() == n);
    if ops.len() < n {
        return None;
    }
    let mut i: usize = 0;
    while i < rows.len()
        invariant
            i <= rows@.len(),
            rv == rows_view(rows@),
            rv.len() == rows@.len(),
            sheet_of(lines(input.spec_bytes())) is Some,
            rv == sheet_of(lines(input.spec_bytes())).unwrap().0,
            ops@ == sheet_of(lines(input.spec_bytes())).unwrap().1,
            rv.len() > 0,
            n == rv[0].len(),
            n <= ops@.len(),
            forall|q: int| 0 <= q < i ==> n <= (#[trigger] rows@[q])@.len(),
        decreases rows@.len() - i,
    {
        assert(rv[i as int] == rows@[i as int]@);
        if rows[i].len() < n {
            assert(rv[i as int].len() < n);
            return None;
        }
        i = i + 1;
    }
    assert(forall|q: int| 0 <= q < rv.len() ==> (#[trigger] rv[q]).len() >= n) by {
        assert forall|q: int| 0 <= q < rv.len() implies (#[trigger] rv[q]).len() >= n by {
            assert(rv[q] == rows@[q]@);
        }
    }
    let mut sol: u64 = 0;
    let mut j: usize = 0;
    while j < n
        invariant
            j <= n <= ops@.len(),
            rv == rows_view(rows@),
            rv.len() == rows@.len(),
            sheet_of(lines(input.spec_bytes())) is Some,
            rv == sheet_of(lines(input.spec_bytes())).unwrap().0,
            ops@ == sheet_of(lines(input.spec_bytes())).unwrap().1,
            rv.len() > 0,
            n == rv[0].len(),
            forall|q: int| 0 <= q < rows@.len() ==> n <= (#[trigger] rows@[q])@.len(),
            sheet_total(rv, ops@, j as int) == Some(sol),
        decreases n - j,
    {
        match fold_column(&rows, j, ops[j]) {
            Some(res) => match sol.checked_add(res) {
                Some(v) => {
                    sol = v;
                },
                None => {
                    proof { lemma_total_none_extends(rv, ops@, j + 1, n as int); }
                    return None;
                },
            },
            None => {
                proof { lemma_total_none_extends(rv, ops@, j + 1, n as int); }
                return None;
            },
        }
        j = j + 1;
    }
    Some(sol)
}

pub open spec fn is_blank(b: u8) -> bool {
    b == 32u8 || b == 9u8 || b == 10u8 || b == 12u8 || b == 13u8
}

/// The length of the leading run of digits and blanks of `line`.
pub open spec fn cell_run(line: Seq<u8>, i: int) -> int
    decreases line.len() - i,
{
    if i >= line.len() || i < 0 {
        line.len() as int
    } else if is_digit(line[i]) || is_blank(line[i]) {
        cell_run(line, i + 1)
    } else {
        i
    }
}

/// The digit cells of a line, up to its first byte that is neither a digit
/// nor a blank: a digit's value, or `None` for a blank.
pub open spec fn cells_of(line: Seq<u8>) -> Seq<Option<u8>> {
    Seq::new(cell_run(line, 0) as nat, |t: int| if is_digit(line[t]) { Some((line[t] - 48) as u8) } else { None })
}

/// The digit grid and the operations of a worksheet read by columns: a line
/// with digit cells is a grid row, any other line lists operations.
pub open spec fn grid_of(ls: Seq<Seq<u8>>) -> Option<(Seq<Seq<Option<u8>>>, Seq<Op>)>
    decreases ls.len(),
{
    if ls.len() == 0 {
        Some((Seq::empty(), Seq::empty()))
    } else {
        match grid_of(ls.drop_last()) {
            None => None,
            Some(prev) => if cells_of(ls.last()).len() > 0 {
                Some((prev.0.push(cells_of(ls.last())), prev.1))
            } else {
                match ops_of(ls.last()) {
                    Some(o) => Some((prev.0, prev.1 + o)),
                    None => None,
                }
            },
        }
    }
}

/// The number that column `j` spells top to bottom over the rows `0 .. i`,
/// blanks skipped; `None` once it exceeds `u64`.
pub open spec fn column_number(mat: Seq<Seq<Option<u8>>>, j: int, i: int) -> Option<u64>
    decreases i,
{
    if i <= 0 {
        Some(0)
    } else {
        match column_number(mat, j, i - 1) {
            None => None,
            Some(a) => match mat[i - 1][j] {
                None => Some(a),
                Some(d) => if a * 10 + d <= u64::MAX { Some((a * 10 + d) as u64) } else { None },
            },
        }
    }
}

pub open spec fn column_blank(mat: Seq<Seq<Option<u8>>>, j: int) -> bool {
    forall|i: int| 0 <= i < mat.len() ==> #[trigger] mat[i][j] is None
}

/// The finished batches and the batch being filled after columns `0 .. j`:
/// a blank column closes a batch, any other adds its number.
pub open spec fn batches_upto(mat: Seq<Seq<Option<u8>>>, j: int) -> Option<(Seq<Seq<u64>>, Seq<u64>)>
    decreases j,
{
    if j <= 0 {
        Some((Seq::empty(), Seq::empty()))
    } else {
        match batches_upto(mat, j - 1) {
            None => None,
            Some(prev) => if column_blank(mat, j - 1) {
                Some((prev.0.push(prev.1), Seq::empty()))
            } else {
                match column_number(mat, j - 1, mat.len() as int) {
                    Some(v) => Some((prev.0, prev.1.push(v))),
                    None => None,
                }
            },
        }
    }
}

/// The batches of numbers of a grid with `n` columns.
pub open spec fn batches_of(mat: Seq<Seq<Option<u8>>>, n: int) -> Option<Seq<Seq<u64>>> {
    match batches_upto(mat, n) {
        Some(b) => Some(b.0.push(b.1)),
        None => None,
    }
}

/// Splits the grid into batches of numbers read down the columns; `None`
/// when a number exceeds `u64`.
pub fn to_batches(mat: &Vec<Vec<Option<u8>>>, n: usize) -> (r: Option<Vec<Vec<u64>>>)
    requires
        forall|i: int| 0 <= i < mat@.len() ==> n <= (#[trigger] mat@[i])@.len(),
    ensures
        batches_of(grid_view(mat@), n as int) is None ==> r is None,
        batches_of(grid_view(mat@), n as int) is Some ==> r is Some && rows_view(r.unwrap()@) == batches_of(grid_view(mat@), n as int).unwrap(),
{
    let ghost g = grid_view(mat@);
    let m = mat.len();
    let mut batches: Vec<Vec<u64>> = Vec::new();
    let mut batch: Vec<u64> = Vec::new();
    let mut j: usize = 0;
    while j < n
        invariant
            j <= n,
            m == mat@.len(),
            g == grid_view(mat@),
            g.len() == m,
            forall|i: int| 0 <= i < mat@.len() ==> n <= (#[trigger] mat@[i])@.len(),
            batches_upto(g, j as int) is Some,
            rows_view(batches@) == batches_upto(g, j as int).unwrap().0,
            batch@ == batches_upto(g, j as int).unwrap().1,
        decreases n - j,
    {
        let mut num: u64 = 0;
        let mut is_empty = true;
        let mut i: usize = 0;
        while i < m
            invariant
                i <= m == mat@.len(),
                j < n,
                g == grid_view(mat@),
                g.len() == m,
                forall|q: int| 0 <= q < mat@.len() ==> n <= (#[trigger] mat@[q])@.len(),
                column_number(g, j as int, i as int) == Some(num),
                is_empty == (forall|q: int| 0 <= q < i ==> #[trigger] g[q][j as int] is None),
            decreases m - i,
        {
            assert(g[i as int] == mat@[i as int]@);
            match mat[i][j] {
                Some(d) => {
                    match num.checked_mul(10) {
                        Some(t) => match t.checked_add(d as u64) {
                            Some(v) => {
                                num = v;
                            },
                            None => {
                                proof { lemma_column_none_extends(g, j as int, i + 1, m as int); lemma_batches_none(g, j + 1, n as int); }
                                return None;
                            },
                        },
                        None => {
                            proof { lemma_column_none_extends(g, j as int, i + 1, m as int); lemma_batches_none(g, j + 1, n as int); }
                            return None;
                        },
                    }
                    is_empty = false;
                },
                None => {},
            }
            i = i + 1;
        }
        if !is_empty {
            batch.push(num);
        } else {
            let ghost before = rows_view(batches@);
            batches.push(batch);
            assert(rows_view(batches@) =~= before.push(batches_upto(g, j as int).unwrap().1));
            batch = Vec::new();
        }
        j = j + 1;
    }
    let ghost before = rows_view(batches@);
    batches.push(batch);
    assert(rows_view(batches@) =~= before.push(batches_upto(g, n as int).unwrap().1));
    Some(batches)
}

pub open spec fn grid_view(mat: Seq<Vec<Option<u8>>>) -> Seq<Seq<Option<u8>>> {
    mat.map_values(|v: Vec<Option<u8>>| v@)
}

proof fn lemma_column_none_extends(g: Seq<Seq<Option<u8>>>, j: int, i: int, k: int)
    requires
        1 <= i <= k,
        column_number(g, j, i) is None,
    ensures
        column_number(g, j, k) is None,
    decreases k - i,
{
    if i < k {
        lemma_column_none_extends(g, j, i, k - 1);
    }
}

proof fn lemma_batches_none(g: Seq<Seq<Option<u8>>>, j: int, k: int)
    requires
        1 <= j <= k,
        column_number(g, j - 1, g.len() as int) is None,
    ensures
        batches_of(g, k) is None,
    decreases k - j,
{
    if j < k {
        lemma_batches_none_from(g, j, k);
    } else {
        assert(!column_blank(g, j - 1)) by {
            if column_blank(g, j - 1) {
                lemma_blank_column_number(g, j - 1, g.len() as int);
            }
        }
    }
}

proof fn lemma_blank_column_number(g: Seq<Seq<Option<u8>>>, j: int, i: int)
    requires
        0 <= i <= g.len(),
        column_blank(g, j),
    ensures
        column_number(g, j, i) == Some(0u64),
    decreases i,
{
    if i > 0 {
        lemma_blank_column_number(g, j, i - 1);
    }
}

proof fn lemma_batches_none_from(g: Seq<Seq<Option<u8>>>, j: int, k: int)
    requires
        1 <= j <= k,
        column_number(g, j - 1, g.len() as int) is None,
    ensures
        batches_upto(g, k) is None,
    decreases k - j,
{
    if j < k {
        lemma_batches_none_from(g, j, k - 1);
    } else {
        assert(!column_blank(g, j - 1)) by {
            if column_blank(g, j - 1) {
                lemma_blank_column_number(g, j - 1, g.len() as int);
            }
        }
    }
}

/// The digit cells of one line.
pub fn read_cells(line: &[u8]) -> (r: Vec<Option<u8>>)
    ensures
        r@ == cells_of(line@),
{
    let mut row: Vec<Option<u8>> = Vec::new();
    let mut t: usize = 0;
    let mut reading = true;
    while reading && t < line.len()
        invariant
            t <= line@.len(),
            !reading ==> t < line@.len() && !is_digit(line@[t as int]) && !is_blank(line@[t as int]),
            cell_run(line@, t as int) == cell_run(line@, 0),
            row@.len() == t,
            forall|u: int| 0 <= u < t ==> #[trigger] row@[u] == (if is_digit(line@[u]) { Some((line@[u] - 48) as u8) } else { None }),
        decreases line@.len() - t + if reading { 1int } else { 0int },
    {
        let b = line[t];
        if 48 <= b && b <= 57 {
            row.push(Some(b - 48));
            t = t + 1;
        } else if b == 32 || b == 9 || b == 10 || b == 12 || b == 13 {
            row.push(None);
            t = t + 1;
        } else {
            reading = false;
        }
    }
    proof {
        assert(cell_run(line@, t as int) == t);
        assert(row@ =~= cells_of(line@));
    }
    row
}

/// Reads the digit grid and the operations of a worksheet.
pub fn read_grid(input: &str) -> (r: Option<(Vec<Vec<Option<u8>>>, Vec<Op>)>)
    ensures
        grid_of(lines(input.spec_bytes())) is None ==> r is None,
        grid_of(lines(input.spec_bytes())) is Some ==> r is Some
            && grid_view(r.unwrap().0@) == grid_of(lines(input.spec_bytes())).unwrap().0
            && r.unwrap().1@ == grid_of(lines(input.spec_bytes())).unwrap().1,
{
    let ls = split_lines(input.as_bytes());
    let ghost lv = lines(input.spec_bytes());
    assert(views(ls@).len() == ls@.len());
    let mut mat: Vec<Vec<Option<u8>>> = Vec::new();
    let mut ops: Vec<Op> = Vec::new();
    let mut i: usize = 0;
    assert(lv.take(0) =~= Seq::<Seq<u8>>::empty());
    while i < ls.len()
        invariant
            views(ls@) == lv,
            lv == lines(input.spec_bytes()),
            ls@.len() == lv.len(),
            i <= lv.len(),
            grid_of(lv.take(i as int)) is Some,
            grid_view(mat@) == grid_of(lv.take(i as int)).unwrap().0,
            ops@ == grid_of(lv.take(i as int)).unwrap().1,
        decreases lv.len() - i,
    {
        assert(ls@[i as int]@ == lv[i as int]);
        assert(lv.take(i + 1).drop_last() =~= lv.take(i as int));
        assert(lv.take(i + 1).last() == lv[i as int]);
        let row = read_cells(ls[i].as_slice());
        if row.len() > 0 {
            let ghost before = grid_view(mat@);
            mat.push(row);
            assert(grid_view(mat@) =~= before.push(cells_of(lv[i as int])));
        } else {
            let ws = words(ls[i].as_slice());
            let ghost wv = words_of(lv[i as int]);
            assert(views(ws@).len() == ws@.len());
            let ghost before_ops = ops@;
            let mut t: usize = 0;
            while t < ws.len()
                invariant
                    views(ws@) == wv,
                    ws@.len() == wv.len(),
                    t <= wv.len(),
                    ops@.len() == before_ops.len() + t,
                    forall|u: int| 0 <= u < before_ops.len() ==> #[trigger] ops@[u] == before_ops[u],
                    forall|u: int| 0 <= u < t ==> #[trigger] op_of(wv[u]) == Some(ops@[before_ops.len() + u]),
                    i < lv.len(),
                    lv == lines(input.spec_bytes()),
                    wv == words_of(lv[i as int]),
                    grid_of(lv.take(i as int)) is Some,
                    cells_of(lv[i as int]).len() == 0,
                    lv.take(i + 1).drop_last() == lv.take(i as int),
                    lv.take(i + 1).last() == lv[i as int],
                decreases wv.len() - t,
            {
                assert(ws@[t as int]@ == wv[t as int]);
                match parse_op(ws[t].as_slice()) {
                    Some(o) => {
                        ops.push(o);
                    },
                    None => {
                        assert(ops_of(lv[i as int]) is None);
                        assert(grid_of(lv.take(i + 1)) is None);
                        proof { lemma_grid_none_extends(lv, i + 1); }
                        return None;
                    },
                }
                t = t + 1;
            }
            assert(ops@ =~= before_ops + ops_of(lv[i as int]).unwrap());
        }
        i = i + 1;
    }
    assert(lv.take(i as int) =~= lv);
    Some((mat, ops))
}

proof fn lemma_grid_none_extends(ls: Seq<Seq<u8>>, k: int)
    requires
        0 <= k <= ls.len(),
        grid_of(ls.take(k)) is None,
    ensures
        grid_of(ls) is None,
    decreases ls.len() - k,
{
    if k < ls.len() {
        assert(ls.take(k + 1).drop_last() =~= ls.take(k));
        lemma_grid_none_extends(ls, k + 1);
    } else {
        assert(ls.take(k) =~= ls);
    }
}

/// The sum of the results of the batches `0 .. k`, batch `q` folded with
/// `ops[q]`; `None` once a partial result exceeds `u64`.
pub open spec fn batch_total(batches: Seq<Seq<u64>>, ops: Seq<Op>, k: int) -> Option<u64>
    decreases k,
{
    if k <= 0 {
        Some(0)
    } else {
        match (batch_total(batches, ops, k - 1), fold_values(batches[k - 1], ops[k - 1], batches[k - 1].len() as int)) {
            (Some(a), Some(b)) => if a + b <= u64::MAX { Some((a + b) as u64) } else { None },
            _ => None,
        }
    }
}

/// The grand total of the worksheet in `s` read by columns: `None` when it
/// cannot be read, has no row, has a row shorter than the first, has not one
/// operation per batch, or a number or result exceeds `u64`.
pub open spec fn column_total(s: Seq<u8>) -> Option<u64> {
    match grid_of(lines(s)) {
        None => None,
        Some(grid) => {
            let mat = grid.0;
            let ops = grid.1;
            if mat.len() == 0 {
                None
            } else {
                let n = mat[0].len();
                if exists|i: int| 0 <= i < mat.len() && #[trigger] mat[i].len() < n {
                    None
                } else {
                    match batches_of(mat, n as int) {
                        None => None,
                        Some(b) => if b.len() != ops.len() {
                            None
                        } else {
                            batch_total(b, ops, b.len() as int)
                        },
                    }
                }
            }
        }
    }
}

/// Applies `op` over the values of `vals`.
pub fn fold_batch(vals: &Vec<u64>, op: Op) -> (r: Option<u64>)
    ensures
        r == fold_values(vals@, op, vals@.len() as int),
{
    let mut acc: u64 = match op {
        Op::Add => 0,
        Op::Mul => 1,
    };
    let mut i: usize = 0;
    while i < vals.len()
        invariant
            i <= vals@.len(),
            fold_values(vals@, op, i as int) == Some(acc),
        decreases vals@.len() - i,
    {
        let v = vals[i];
        let next = match op {
            Op::Add => acc.checked_add(v),
            Op::Mul => acc.checked_mul(v),
        };
        match next {
            Some(a) => {
                acc = a;
            },
            None => {
                proof { lemma_fold_none_extends(vals@, op, i + 1, vals@.len() as int); }
                return None;
            },
        }
        i = i + 1;
    }
    Some(acc)
}

proof fn lemma_batch_total_none_extends(b: Seq<Seq<u64>>, ops: Seq<Op>, j: int, k: int)
    requires
        1 <= j <= k,
        batch_total(b, ops, j) is None,
    ensures
        batch_total(b, ops, k) is None,
    decreases k - j,
{
    if j < k {
        lemma_batch_total_none_extends(b, ops, j, k - 1);
    }
}

/// The grand total of the worksheet in `input`, reading numbers down the
/// columns.
pub fn part_two(input: &str) -> (r: Option<u64>)
    ensures
        r == column_total(input.spec_bytes()),
{
    let (mat, ops) = match read_grid(input) {
        Some(p) => p,
        None => {
            return None;
        },
    };
    let ghost g = grid_view(mat@);
    assert(g.len() == mat@.len());
    if mat.len() == 0 {
        return None;
    }
    let n = mat[0].len();
    assert(g[0].len() == n);
    let mut i: usize = 0;
    while i < mat.len()
        invariant
            i <= mat@.len(),
            g == grid_view(mat@),
            g.len() == mat@.len(),
            grid_of(lines(input.spec_bytes())) is Some,
            g == grid_of(lines(input.spec_bytes())).unwrap().0,
            g.len() > 0,
            n == g[0].len(),
            forall|q: int| 0 <= q < i ==> n <= (#[trigger] mat@[q])@.len(),
        decreases mat@.len() - i,
    {
        assert(g[i as int] == mat@[i as int]@);
        if mat[i].len() < n {
            assert(g[i as int].len() < n);
            return None;
        }
        i = i + 1;
    }
    assert forall|q: int| 0 <= q < g.len() implies (#[trigger] g[q]).len() >= n by {
        assert(g[q] == mat@[q]@);
    }
    let batches = match to_batches(&mat, n) {
        Some(b) => b,
        None => {
            return None;
        },
    };
    let ghost bv = rows_view(batches@);
    assert(bv.len() == batches@.len());
    if batches.len() != ops.len() {
        return None;
    }
    let mut sol: u64 = 0;
    let mut k: usize = 0;
    while k < batches.len()
        invariant
            k <= batches@.len() == ops@.len(),
            bv == rows_view(batches@),
            bv.len() == batches@.len(),
            batch_total(bv, ops@, k as int) == Some(sol),
            grid_of(lines(input.spec_bytes())) is Some,
            g == grid_of(lines(input.spec_bytes())).unwrap().0,
            ops@ == grid_of(lines(input.spec_bytes())).unwrap().1,
            g.len() > 0,
            n == g[0].len(),
            forall|q: int| 0 <= q < g.len() ==> (#[trigger] g[q]).len() >= n,
            batches_of(g, n as int) is Some,
            bv == batches_of(g, n as int).unwrap(),
        decreases batches@.len() - k,
    {
        assert(bv[k as int] == batches@[k as int]@);
        match fold_batch(&batches[k], ops[k]) {
            Some(res) => match sol.checked_add(res) {
                Some(v) => {
                    sol = v;
                },
                None => {
                    proof { lemma_batch_total_none_extends(bv, ops@, k + 1, batches@.len() as int); }
                    return None;
                },
            },
            None => {
                proof { lemma_batch_total_none_extends(bv, ops@, k + 1, batches@.len() as int); }
                return None;
            },
        }
        k = k + 1;
    }
    Some(sol)
}

} // verus!
