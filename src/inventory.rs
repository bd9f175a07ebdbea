use vstd::prelude::*;
use vstd::string::StringSliceAdditionalSpecFns;
use crate::text::{lines, views, split, unsigned_value, split_lines, split_bytes, parse_u64};
use vstd::set_lib::*;

verus! {

broadcast use vstd::seq_lib::group_to_multiset_ensures;

/// An inclusive range of ingredient identifiers: start, then end.
pub type IdRange = (u64, u64);

/// Some range of `rs` holds `x`.
pub open spec fn covers(rs: Seq<IdRange>, x: int) -> bool {
    exists|k: int| 0 <= k < rs.len() && (#[trigger] rs[k]).0 <= x <= rs[k].1
}

/// Ascending by start, then by end.
pub open spec fn sorted_ranges(rs: Seq<IdRange>) -> bool {
    forall|i: int, j: int| 0 <= i < j < rs.len() ==> {
        ||| (#[trigger] rs[i]).0 < (#[trigger] rs[j]).0
        ||| (rs[i].0 == rs[j].0 && rs[i].1 <= rs[j].1)
    }
}

/// Non-empty ranges, each ending before the next one starts.
pub open spec fn separated(rs: Seq<IdRange>) -> bool {
    &&& forall|k: int| 0 <= k < rs.len() ==> (#[trigger] rs[k]).0 <= rs[k].1
    &&& forall|i: int, j: int| 0 <= i < j < rs.len() ==> (#[trigger] rs[i]).1 < (#[trigger] rs[j]).0
}

/// Relies on `slice::sort_unstable`: afterwards the ranges are in ascending
/// lexicographic order, as std orders tuples, and are a permutation of the
/// ranges before.
#[verifier::external_body]
fn sort_ranges(v: &mut Vec<IdRange>)
    ensures
        sorted_ranges(final(v)@),
        final(v)@.to_multiset() == old(v)@.to_multiset(),
{
    v.sort_unstable();
}

/// Joins overlapping ranges of an ascending list and drops empty ones.
pub fn merge_ranges(sorted: &Vec<IdRange>) -> (r: Vec<IdRange>)
    requires
        sorted_ranges(sorted@),
    ensures
        separated(r@),
        forall|x: int| #[trigger] covers(r@, x) == covers(sorted@, x),
{
    let mut clean: Vec<IdRange> = Vec::new();
    let mut cur: Option<IdRange> = None;
    let mut i: usize = 0;
    while i < sorted.len()
        invariant
            i <= sorted@.len(),
            sorted_ranges(sorted@),
            separated(clean@),
            cur is Some ==> {
                let c = cur.unwrap();
                &&& c.0 <= c.1
                &&& forall|k: int| 0 <= k < clean@.len() ==> (#[trigger] clean@[k]).1 < c.0
                &&& forall|t: int| i <= t < sorted@.len() ==> c.0 <= (#[trigger] sorted@[t]).0
            },
            cur is None ==> clean@.len() == 0,
            forall|x: int| #[trigger] covers(sorted@.take(i as int), x) == (covers(clean@, x) || (cur is Some
                && cur.unwrap().0 <= x <= cur.unwrap().1)),
        decreases sorted@.len() - i,
    {
        let next = sorted[i];
        let ghost prev_take = sorted@.take(i as int);
        proof {
            assert(sorted@.take(i + 1) =~= prev_take.push(next));
            assert forall|x: int| #[trigger] covers(prev_take.push(next), x) == (covers(prev_take, x) || (next.0 <= x <= next.1)) by {
                if covers(prev_take.push(next), x) {
                    let k = choose|k: int| 0 <= k < prev_take.push(next).len() && (#[trigger] prev_take.push(next)[k]).0 <= x <= prev_take.push(next)[k].1;
                    if k < prev_take.len() {
                        assert(prev_take[k] == prev_take.push(next)[k]);
                    }
                }
                if covers(prev_take, x) {
                    let k = choose|k: int| 0 <= k < prev_take.len() && (#[trigger] prev_take[k]).0 <= x <= prev_take[k].1;
                    assert(prev_take.push(next)[k] == prev_take[k]);
                }
                if next.0 <= x <= next.1 {
                    assert(prev_take.push(next)[prev_take.len() as int] == next);
                }
            }
        }
        if next.0 <= next.1 {
            match cur {
                None => {
                    cur = Some(next);
                },
                Some(c) => {
                    if next.0 <= c.1 {
                        let e = if next.1 > c.1 { next.1 } else { c.1 };
                        cur = Some((c.0, e));
                    } else {
                        let ghost old_clean = clean@;
                        clean.push(c);
                        proof {
                            assert forall|x: int| #[trigger] covers(clean@, x) == (covers(old_clean, x) || (c.0 <= x <= c.1)) by {
                                if covers(clean@, x) {
                                    let k = choose|k: int| 0 <= k < clean@.len() && (#[trigger] clean@[k]).0 <= x <= clean@[k].1;
                                    if k < old_clean.len() {
                                        assert(old_clean[k] == clean@[k]);
                                    }
                                }
                                if covers(old_clean, x) {
                                    let k = choose|k: int| 0 <= k < old_clean.len() && (#[trigger] old_clean[k]).0 <= x <= old_clean[k].1;
                                    assert(clean@[k] == old_clean[k]);
                                }
                                if c.0 <= x <= c.1 {
                                    assert(clean@[old_clean.len() as int] == c);
                                }
                            }
                        }
                        cur = Some(next);
                    }
                },
            }
        }
        i = i + 1;
    }
    let ghost before = clean@;
    match cur {
        Some(c) => {
            clean.push(c);
            proof {
                assert forall|x: int| #[trigger] covers(clean@, x) == (covers(before, x) || (c.0 <= x <= c.1)) by {
                    if covers(clean@, x) {
                        let k = choose|k: int| 0 <= k < clean@.len() && (#[trigger] clean@[k]).0 <= x <= clean@[k].1;
                        if k < before.len() {
                            assert(before[k] == clean@[k]);
                        }
                    }
                    if covers(before, x) {
                        let k = choose|k: int| 0 <= k < before.len() && (#[trigger] before[k]).0 <= x <= before[k].1;
                        assert(clean@[k] == before[k]);
                    }
                    if c.0 <= x <= c.1 {
                        assert(clean@[before.len() as int] == c);
                    }
                }
            }
        },
        None => {},
    }
    proof {
        assert(sorted@.take(i as int) =~= sorted@);
    }
    clean
}

/// Whether a range of the separated list `rs` holds `id`, by binary search.
pub fn contains_id(rs: &Vec<IdRange>, id: u64) -> (r: bool)
    requires
        separated(rs@),
    ensures
        r == covers(rs@, id as int),
{
    let mut lo: usize = 0;
    let mut hi: usize = rs.len();
    while lo < hi
        invariant
            lo <= hi <= rs@.len(),
            separated(rs@),
            forall|k: int| 0 <= k < lo ==> (#[trigger] rs@[k]).0 <= id,
            forall|k: int| hi <= k < rs@.len() ==> (#[trigger] rs@[k]).0 > id,
        decreases hi - lo,
    {
        let mid = lo + (hi - lo) / 2;
        if rs[mid].0 <= id {
            proof {
                assert forall|k: int| 0 <= k <= mid implies (#[trigger] rs@[k]).0 <= id by {
                    if k < mid {
                        assert(rs@[k].1 < rs@[mid as int].0);
                    }
                }
            }
            lo = mid + 1;
        } else {
            proof {
                assert forall|k: int| mid <= k < rs@.len() implies (#[trigger] rs@[k]).0 > id by {
                    if k > mid {
                        assert(rs@[mid as int].1 < rs@[k].0);
                    }
                }
            }
            hi = mid;
        }
    }
    if lo == 0 {
        return false;
    }
    let found = id <= rs[lo - 1].1;
    proof {
        if covers(rs@, id as int) {
            let k = choose|k: int| 0 <= k < rs@.len() && (#[trigger] rs@[k]).0 <= id <= rs@[k].1;
            if k < lo - 1 {
                assert(rs@[k].1 < rs@[lo - 1].0);
            }
        }
    }
    found
}

/// The range that a line `start-end` spells; pieces after a second dash
/// are ignored.
pub open spec fn id_range_of(line: Seq<u8>) -> Option<IdRange> {
    let p = split(line, 45u8);
    if p.len() >= 2 && unsigned_value(p[0]) is Some && unsigned_value(p[1]) is Some {
        Some((unsigned_value(p[0]).unwrap(), unsigned_value(p[1]).unwrap()))
    } else {
        None
    }
}

/// The index of the first empty line at or after `i`, or the number of
/// lines when there is none.
pub open spec fn first_blank(ls: Seq<Seq<u8>>, i: int) -> int
    decreases ls.len() - i,
{
    if i >= ls.len() || i < 0 {
        ls.len() as int
    } else if ls[i].len() == 0 {
        i
    } else {
        first_blank(ls, i + 1)
    }
}

proof fn lemma_first_blank_range(ls: Seq<Seq<u8>>, i: int)
    requires
        0 <= i <= ls.len(),
    ensures
        i <= first_blank(ls, i) <= ls.len(),
    decreases ls.len() - i,
{
    if i < ls.len() && ls[i].len() != 0 {
        lemma_first_blank_range(ls, i + 1);
    }
}

/// The identifier lines: those after the first empty line.
pub open spec fn id_lines(ls: Seq<Seq<u8>>) -> Seq<Seq<u8>> {
    let b = first_blank(ls, 0);
    if b < ls.len() { ls.skip(b + 1) } else { Seq::empty() }
}

/// The ranges above the first empty line of `s`, if every line there is
/// one.
pub open spec fn ranges_of(s: Seq<u8>) -> Option<Seq<IdRange>> {
    let ls = lines(s);
    let rl = ls.take(first_blank(ls, 0));
    if forall|t: int| 0 <= t < rl.len() ==> #[trigger] id_range_of(rl[t]) is Some {
        Some(Seq::new(rl.len(), |t: int| id_range_of(rl[t]).unwrap()))
    } else {
        None
    }
}

/// The identifiers below the first empty line of `s`, if every line there
/// is one.
pub open spec fn ids_of(s: Seq<u8>) -> Option<Seq<u64>> {
    let il = id_lines(lines(s));
    if forall|t: int| 0 <= t < il.len() ==> #[trigger] unsigned_value(il[t]) is Some {
        Some(Seq::new(il.len(), |t: int| unsigned_value(il[t]).unwrap()))
    } else {
        None
    }
}

/// How many of `ids` some range of `rs` holds.
pub open spec fn count_fresh(rs: Seq<IdRange>, ids: Seq<u64>) -> nat
    decreases ids.len(),
{
    if ids.len() == 0 {
        0
    } else {
        count_fresh(rs, ids.drop_last()) + if covers(rs, ids.last() as int) { 1nat } else { 0nat }
    }
}

/// The range that one line spells.
pub fn parse_range(range_str: &[u8]) -> (r: Option<IdRange>)
    ensures
        r == id_range_of(range_str@),
{
    let parts = split_bytes(range_str, 45u8);
    assert(views(parts@).len() == parts@.len());
    if parts.len() < 2 {
        return None;
    }
    assert(parts@[0]@ == split(range_str@, 45u8)[0]);
    assert(parts@[1]@ == split(range_str@, 45u8)[1]);
    match (parse_u64(parts[0].as_slice()), parse_u64(parts[1].as_slice())) {
        (Some(start), Some(end)) => Some((start, end)),
        _ => None,
    }
}

/// Reads the ranges above the first empty line, and the identifiers below
/// it.
pub fn read_inventory(input: &str) -> (r: Option<(Vec<IdRange>, Vec<u64>)>)
    ensures
        (ranges_of(input.spec_bytes()) is None || ids_of(input.spec_bytes()) is None) ==> r is None,
        (ranges_of(input.spec_bytes()) is Some && ids_of(input.spec_bytes()) is Some) ==> r is Some
            && r.unwrap().0@ == ranges_of(input.spec_bytes()).unwrap()
            && r.unwrap().1@ == ids_of(input.spec_bytes()).unwrap(),
{
    let ls = split_lines(input.as_bytes());
    let ghost lv = lines(input.spec_bytes());
    let ghost b = first_blank(lv, 0);
    assert(views(ls@).len() == ls@.len());
    let mut ranges: Vec<IdRange> = Vec::new();
    let mut i: usize = 0;
    while i < ls.len() && ls[i].len() != 0
        invariant
            views(ls@) == lv,
            lv == lines(input.spec_bytes()),
            ls@.len() == lv.len(),
            b == first_blank(lv, 0),
            i <= lv.len(),
            first_blank(lv, i as int) == b,
            ranges@.len() == i,
            forall|t: int| 0 <= t < i ==> #[trigger] id_range_of(lv[t]) == Some(ranges@[t]),
        decreases lv.len() - i,
    {
        assert(ls@[i as int]@ == lv[i as int]);
        match parse_range(ls[i].as_slice()) {
            Some(r) => {
                ranges.push(r);
            },
            None => {
                proof {
                    assert(lv[i as int].len() != 0);
                    lemma_first_blank_range(lv, i + 1);
                }
                assert(lv.take(b)[i as int] == lv[i as int]);
                assert(id_range_of(lv.take(b)[i as int]) is None);
                assert(ranges_of(input.spec_bytes()) is None);
                return None;
            },
        }
        i = i + 1;
    }
    proof {
        if i < lv.len() {
            assert(ls@[i as int]@ == lv[i as int]);
        }
        assert(first_blank(lv, i as int) == i);
        assert(ranges@ =~= ranges_of(input.spec_bytes()).unwrap());
    }
    let ghost il = id_lines(lv);
    let mut ids: Vec<u64> = Vec::new();
    let mut j: usize = if i < ls.len() { i + 1 } else { i };
    proof {
        if i < lv.len() {
            assert(il =~= lv.skip(i + 1));
        } else {
            assert(il =~= Seq::<Seq<u8>>::empty());
        }
    }
    while j < ls.len()
        invariant
            views(ls@) == lv,
            lv == lines(input.spec_bytes()),
            ls@.len() == lv.len(),
            il == id_lines(lv),
            b == i,
            b == first_blank(lv, 0),
            i < lv.len() ==> i + 1 <= j,
            i >= lv.len() ==> j == i,
            j <= lv.len(),
            il.len() == lv.len() - (j - ids@.len()),
            forall|t: int| 0 <= t < il.len() ==> #[trigger] il[t] == lv[j - ids@.len() + t],
            forall|t: int| 0 <= t < ids@.len() ==> #[trigger] unsigned_value(il[t]) == Some(ids@[t]),
            ranges_of(input.spec_bytes()) is Some,
            ranges@ == ranges_of(input.spec_bytes()).unwrap(),
        decreases lv.len() - j,
    {
        assert(ls@[j as int]@ == lv[j as int]);
        assert(il[ids@.len() as int] == lv[j as int]);
        match parse_u64(ls[j].as_slice()) {
            Some(v) => {
                ids.push(v);
            },
            None => {
                assert(unsigned_value(il[ids@.len() as int]) is None);
                assert(ids_of(input.spec_bytes()) is None);
                return None;
            },
        }
        j = j + 1;
    }
    proof {
        assert(ids@ =~= ids_of(input.spec_bytes()).unwrap());
    }
    Some((ranges, ids))
}

proof fn lemma_count_le(rs: Seq<IdRange>, ids: Seq<u64>)
    ensures
        count_fresh(rs, ids) <= ids.len(),
    decreases ids.len(),
{
    if ids.len() > 0 {
        lemma_count_le(rs, ids.drop_last());
    }
}

/// Reordering the ranges does not change which identifiers they hold.
proof fn lemma_permutation_covers(a: Seq<IdRange>, b: Seq<IdRange>)
    requires
        a.to_multiset() == b.to_multiset(),
    ensures
        forall|x: int| #[trigger] covers(a, x) == covers(b, x),
{
    assert forall|x: int| #[trigger] covers(a, x) == covers(b, x) by {
        if covers(a, x) {
            let k = choose|k: int| 0 <= k < a.len() && (#[trigger] a[k]).0 <= x <= a[k].1;
            assert(a.to_multiset().count(a[k]) > 0);
            assert(b.contains(a[k]));
        }
        if covers(b, x) {
            let k = choose|k: int| 0 <= k < b.len() && (#[trigger] b[k]).0 <= x <= b[k].1;
            assert(b.to_multiset().count(b[k]) > 0);
            assert(a.contains(b[k]));
        }
    }
}

/// How many of the listed identifiers some listed range holds.
pub fn part_one(input: &str) -> (r: Option<u64>)
    ensures
        (ranges_of(input.spec_bytes()) is None || ids_of(input.spec_bytes()) is None) ==> r is None,
        (ranges_of(input.spec_bytes()) is Some && ids_of(input.spec_bytes()) is Some) ==> r == Some(
            count_fresh(ranges_of(input.spec_bytes()).unwrap(), ids_of(input.spec_bytes()).unwrap()) as u64,
        ),
{
    let (mut ranges, ids) = match read_inventory(input) {
        Some(p) => p,
        None => {
            return None;
        },
    };
    let ghost unsorted = ranges@;
    sort_ranges(&mut ranges);
    let merged = merge_ranges(&ranges);
    proof { lemma_permutation_covers(ranges@, unsorted); }
    let mut sol: u64 = 0;
    let mut t: usize = 0;
    proof { lemma_count_le(unsorted, ids@); }
    while t < ids.len()
        invariant
            t <= ids@.len(),
            separated(merged@),
            forall|x: int| #[trigger] covers(merged@, x) == covers(unsorted, x),
            sol == count_fresh(unsorted, ids@.take(t as int)),
            sol <= t,
        decreases ids@.len() - t,
    {
        proof {
            assert(ids@.take(t + 1).drop_last() =~= ids@.take(t as int));
        }
        if contains_id(&merged, ids[t]) {
            sol = sol + 1;
        }
        t = t + 1;
    }
    proof { assert(ids@.take(t as int) =~= ids@); }
    Some(sol)
}

/// The identifiers that some range of `rs` holds.
pub open spec fn covered(rs: Seq<IdRange>) -> Set<int> {
    Set::new(|x: int| covers(rs, x))
}

proof fn lemma_covered_len(rs: Seq<IdRange>)
    requires
        separated(rs),
    ensures
        covered(rs).finite(),
        covered(rs).len() == span_total(rs),
    decreases rs.len(),
{
    if rs.len() == 0 {
        assert(covered(rs) =~= Set::<int>::empty());
    } else {
        let d = rs.drop_last();
        assert(separated(d)) by {
            assert forall|k: int| 0 <= k < d.len() implies (#[trigger] d[k]).0 <= d[k].1 by {
                assert(d[k] == rs[k]);
            }
            assert forall|i: int, j: int| 0 <= i < j < d.len() implies (#[trigger] d[i]).1 < (#[trigger] d[j]).0 by {
                assert(d[i] == rs[i] && d[j] == rs[j]);
            }
        }
        lemma_covered_len(d);
        let l = rs.last();
        let last_set = set_int_range(l.0 as int, l.1 + 1);
        lemma_int_range(l.0 as int, l.1 + 1);
        assert(covered(rs) =~= covered(d).union(last_set)) by {
            assert forall|x: int| covered(rs).contains(x) == covered(d).union(last_set).contains(x) by {
                if covers(rs, x) {
                    let k = choose|k: int| 0 <= k < rs.len() && (#[trigger] rs[k]).0 <= x <= rs[k].1;
                    if k < d.len() {
                        assert(d[k] == rs[k]);
                    }
                }
                if covers(d, x) {
                    let k = choose|k: int| 0 <= k < d.len() && (#[trigger] d[k]).0 <= x <= d[k].1;
                    assert(rs[k] == d[k]);
                }
                if l.0 <= x <= l.1 {
                    assert(rs[rs.len() - 1] == l);
                }
            }
        }
        assert(covered(d).disjoint(last_set)) by {
            assert forall|x: int| covered(d).contains(x) implies !last_set.contains(x) by {
                let k = choose|k: int| 0 <= k < d.len() && (#[trigger] d[k]).0 <= x <= d[k].1;
                assert(rs[k].1 < rs[rs.len() - 1].0);
            }
        }
        lemma_set_disjoint_lens(covered(d), last_set);
    }
}

/// The total length of the ranges of `rs`.
pub open spec fn span_total(rs: Seq<IdRange>) -> int
    decreases rs.len(),
{
    if rs.len() == 0 {
        0
    } else {
        span_total(rs.drop_last()) + (rs.last().1 - rs.last().0 + 1)
    }
}

/// How many identifiers the listed ranges hold together; `None` when the
/// count exceeds `u64`.
pub fn part_two(input: &str) -> (r: Option<u64>)
    ensures
        (ranges_of(input.spec_bytes()) is None || ids_of(input.spec_bytes()) is None) ==> r is None,
        (ranges_of(input.spec_bytes()) is Some && ids_of(input.spec_bytes()) is Some) ==> {
            let n = covered(ranges_of(input.spec_bytes()).unwrap()).len();
            &&& n <= u64::MAX ==> r == Some(n as u64)
            &&& n > u64::MAX ==> r is None
        },
{
    let (mut ranges, _ids) = match read_inventory(input) {
        Some(p) => p,
        None => {
            return None;
        },
    };
    let ghost unsorted = ranges@;
    sort_ranges(&mut ranges);
    let merged = merge_ranges(&ranges);
    proof {
        lemma_permutation_covers(ranges@, unsorted);
        assert(covered(merged@) =~= covered(unsorted));
        lemma_covered_len(merged@);
    }
    let mut sol: u64 = 0;
    let mut t: usize = 0;
    while t < merged.len()
        invariant
            t <= merged@.len(),
            separated(merged@),
            sol == span_total(merged@.take(t as int)),
            span_total(merged@) == covered(unsorted).len(),
            ranges_of(input.spec_bytes()) is Some,
            unsorted == ranges_of(input.spec_bytes()).unwrap(),
        decreases merged@.len() - t,
    {
        let ghost pre = merged@.take(t as int);
        proof {
            assert(merged@.take(t + 1).drop_last() =~= pre);
            lemma_span_prefix(merged@, t + 1);
        }
        let (a, b) = merged[t];
        let len: u64 = b - a;
        if len == u64::MAX {
            return None;
        }
        match sol.checked_add(len + 1) {
            Some(v) => {
                sol = v;
            },
            None => {
                return None;
            },
        }
        t = t + 1;
    }
    proof { assert(merged@.take(t as int) =~= merged@); }
    Some(sol)
}

proof fn lemma_span_prefix(rs: Seq<IdRange>, k: int)
    requires
        separated(rs),
        0 <= k <= rs.len(),
    ensures
        span_total(rs.take(k)) <= span_total(rs),
        span_total(rs.take(k)) >= 0,
    decreases rs.len(),
{
    if rs.len() > 0 {
        let d = rs.drop_last();
        assert(separated(d)) by {
            assert forall|q: int| 0 <= q < d.len() implies (#[trigger] d[q]).0 <= d[q].1 by {
                assert(d[q] == rs[q]);
            }
            assert forall|i: int, j: int| 0 <= i < j < d.len() implies (#[trigger] d[i]).1 < (#[trigger] d[j]).0 by {
                assert(d[i] == rs[i] && d[j] == rs[j]);
            }
        }
        assert(rs[rs.len() - 1].0 <= rs[rs.len() - 1].1);
        if k == rs.len() {
            lemma_span_prefix(d, k - 1);
            assert(rs.take(k) =~= rs);
            assert(d.take(k - 1) =~= d);
        } else {
            lemma_span_prefix(d, k);
            assert(d.take(k) =~= rs.take(k));
            lemma_span_prefix(d, d.len() as int);
            assert(d.take(d.len() as int) =~= d);
        }
    } else {
        assert(rs.take(k) =~= rs);
    }
}

} // verus!
