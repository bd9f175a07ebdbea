use vstd::prelude::*;
use std::collections::HashSet;
use vstd::string::StringSliceAdditionalSpecFns;
use crate::text::{lines, views, split, unsigned_value, split_lines, split_bytes, parse_u64};

verus! {

/// Ten to the power `e`.
pub open spec fn pow10(e: nat) -> nat
    decreases e,
{
    if e == 0 {
        1
    } else {
        10 * pow10((e - 1) as nat)
    }
}

/// The number of decimal digits of `n`; zero has none.
pub open spec fn num_digits(n: nat) -> nat
    decreases n,
{
    if n == 0 {
        0
    } else {
        1 + num_digits(n / 10)
    }
}

/// The number whose digits are those of `part`, written on `size` digits,
/// repeated `k` times; fewer than two copies leave `part` as it is.
pub open spec fn repeat(part: nat, size: nat, k: nat) -> nat
    decreases k,
{
    if k <= 1 {
        part
    } else {
        repeat(part, size, (k - 1) as nat) * pow10(size) + part
    }
}

pub proof fn lemma_pow10_positive(e: nat)
    ensures
        pow10(e) >= 1,
    decreases e,
{
    if e > 0 {
        lemma_pow10_positive((e - 1) as nat);
    }
}

pub proof fn lemma_pow10_monotone(a: nat, b: nat)
    requires
        a <= b,
    ensures
        pow10(a) <= pow10(b),
    decreases b,
{
    if a < b {
        lemma_pow10_monotone(a, (b - 1) as nat);
        lemma_pow10_positive((b - 1) as nat);
    }
}

/// A positive number lies between the powers of ten that its digit count
/// names.
pub proof fn lemma_digits_bounds(n: nat)
    ensures
        n > 0 ==> pow10((num_digits(n) - 1) as nat) <= n < pow10(num_digits(n)),
        n == 0 ==> num_digits(n) == 0,
    decreases n,
{
    if n >= 10 {
        lemma_digits_bounds(n / 10);
    } else if n > 0 {
        assert(n / 10 == 0);
        assert(num_digits(0) == 0);
        assert(num_digits(n) == 1 + num_digits(n / 10));
        assert(pow10(1) == 10) by {
            assert(pow10(0) == 1);
        }
    }
}

/// Ten to the power `e`, computed.
pub fn pow10_u64(e: u32) -> (r: u64)
    requires
        pow10(e as nat) <= u64::MAX,
    ensures
        r == pow10(e as nat),
{
    let mut r: u64 = 1;
    let mut i: u32 = 0;
    while i < e
        invariant
            i <= e,
            r == pow10(i as nat),
            pow10(e as nat) <= u64::MAX,
        decreases e - i,
    {
        proof { lemma_pow10_monotone((i + 1) as nat, e as nat); }
        r = r * 10;
        i = i + 1;
    }
    r
}

/// The number of decimal digits of `num`.
pub fn digits(num: u64) -> (r: u8)
    ensures
        r == num_digits(num as nat),
{
    let mut digits: u8 = 0;
    let mut n: u64 = num;
    proof {
        lemma_digits_bounds(num as nat);
        if num_digits(num as nat) > 20 {
            lemma_pow10_monotone(20, (num_digits(num as nat) - 1) as nat);
            reveal_with_fuel(pow10, 21);
            assert(pow10(20) == 100000000000000000000nat);
        }
    }
    while n > 0
        invariant
            digits + num_digits(n as nat) == num_digits(num as nat),
            num_digits(num as nat) <= 20,
        decreases n,
    {
        n = n / 10;
        digits = digits + 1;
    }
    digits
}

/// The first `k` digits of `num`; zero for zero.
pub open spec fn prefix_of(num: nat, k: nat) -> nat {
    if num == 0 {
        0
    } else {
        num / pow10((num_digits(num) - k) as nat)
    }
}

/// The number formed by the first `prefix_digits` digits of `num`.
pub fn prefix(num: u64, prefix_digits: u8) -> (r: u64)
    requires
        num == 0 || 1 <= prefix_digits <= num_digits(num as nat),
    ensures
        r == prefix_of(num as nat, prefix_digits as nat),
{
    if num == 0 {
        return 0;
    }
    let d = digits(num);
    proof {
        lemma_digits_bounds(num as nat);
        lemma_pow10_monotone((d - prefix_digits) as nat, (d - 1) as nat);
        lemma_pow10_positive((d - prefix_digits) as nat);
    }
    let p = pow10_u64((d - prefix_digits) as u32);
    num / p
}

pub proof fn lemma_repeat_monotone(part: nat, size: nat, a: nat, b: nat)
    requires
        1 <= a <= b,
    ensures
        repeat(part, size, a) <= repeat(part, size, b),
    decreases b,
{
    if a < b {
        lemma_repeat_monotone(part, size, a, (b - 1) as nat);
        lemma_pow10_positive(size);
        let r = repeat(part, size, (b - 1) as nat);
        assert(r * pow10(size) >= r) by (nonlinear_arith)
            requires
                pow10(size) >= 1,
                r >= 0,
        ;
    }
}

/// `part`, written on `part_size` digits, repeated `num_parts` times.
pub fn compose(part: u64, part_size: u8, num_parts: u8) -> (r: u64)
    requires
        repeat(part as nat, part_size as nat, num_parts as nat) <= u64::MAX,
        num_parts >= 2 ==> pow10(part_size as nat) <= u64::MAX,
    ensures
        r == repeat(part as nat, part_size as nat, num_parts as nat),
{
    let mut invalid: u64 = part;
    if num_parts <= 1 {
        return invalid;
    }
    let p = pow10_u64(part_size as u32);
    let mut n: u8 = num_parts;
    while n > 1
        invariant
            1 <= n <= num_parts,
            p == pow10(part_size as nat),
            invalid == repeat(part as nat, part_size as nat, (num_parts - n + 1) as nat),
            repeat(part as nat, part_size as nat, num_parts as nat) <= u64::MAX,
        decreases n,
    {
        proof {
            lemma_repeat_monotone(part as nat, part_size as nat, (num_parts - n + 2) as nat, num_parts as nat);
            lemma_pow10_positive(part_size as nat);
            assert(invalid * p <= invalid * p + part);
        }
        invalid = invalid * p;
        invalid = invalid + part;
        n = n - 1;
    }
    invalid
}

/// `compose`, or `None` when the result exceeds `u64`.
pub fn compose_checked(part: u64, part_size: u8, num_parts: u8) -> (r: Option<u64>)
    requires
        pow10(part_size as nat) <= u64::MAX,
    ensures
        repeat(part as nat, part_size as nat, num_parts as nat) <= u64::MAX ==> r == Some(
            repeat(part as nat, part_size as nat, num_parts as nat) as u64,
        ),
        repeat(part as nat, part_size as nat, num_parts as nat) > u64::MAX ==> r is None,
{
    let mut invalid: u64 = part;
    if num_parts <= 1 {
        return Some(invalid);
    }
    let p = pow10_u64(part_size as u32);
    let mut n: u8 = num_parts;
    while n > 1
        invariant
            1 <= n <= num_parts,
            p == pow10(part_size as nat),
            invalid == repeat(part as nat, part_size as nat, (num_parts - n + 1) as nat),
        decreases n,
    {
        proof {
            lemma_repeat_monotone(part as nat, part_size as nat, (num_parts - n + 2) as nat, num_parts as nat);
        }
        match invalid.checked_mul(p) {
            Some(m) => match m.checked_add(part) {
                Some(v) => {
                    invalid = v;
                },
                None => {
                    return None;
                },
            },
            None => {
                proof {
                    lemma_pow10_positive(part_size as nat);
                    assert(invalid * p <= invalid * p + part);
                }
                return None;
            },
        }
        n = n - 1;
    }
    Some(invalid)
}

/// An inclusive range of identifiers.
#[derive(Debug, Clone, Copy, PartialEq, Eq, Structural)]
pub struct Range {
    pub start: u64,
    pub end: u64,
}

impl Range {
    pub fn has(&self, item: u64) -> (r: bool)
        ensures
            r == (self.start <= item <= self.end),
    {
        self.start <= item && item <= self.end
    }
}

/// A running total together with the identifiers already counted, when
/// they are tracked.
pub type Tally = (int, Option<Set<u64>>);

pub open spec fn tracked_view(set: Option<HashSet<u64>>) -> Option<Set<u64>> {
    match set {
        Some(h) => Some(h@),
        None => None,
    }
}

/// Counts `v` unless it is tracked and already counted.
pub open spec fn take_candidate(st: Tally, v: u64) -> Tally {
    match st.1 {
        None => (st.0 + v, None),
        Some(seen) => if seen.contains(v) {
            st
        } else {
            (st.0 + v, Some(seen.insert(v)))
        },
    }
}

/// The parts of `ps` digits whose repetitions are tried for numbers of `ps`
/// times the part count digits: those between the leading digits of the two
/// bounds, or all parts of that length when those are out of order.
pub open spec fn part_bounds(range: Range, ps: nat) -> (nat, nat) {
    let first = if ps <= num_digits(range.start as nat) {
        prefix_of(range.start as nat, ps)
    } else {
        pow10((ps - 1) as nat)
    };
    let last = prefix_of(range.end as nat, ps);
    if last < first {
        (pow10((ps - 1) as nat), (pow10(ps) - 1) as nat)
    } else {
        (first, last)
    }
}

/// Tries the parts `p ..= last`, counting each repetition that falls in
/// `range`.
pub open spec fn scan_parts(st: Tally, range: Range, ps: nat, parts: nat, p: int, last: int) -> Tally
    decreases last + 1 - p,
{
    if p > last || p < 0 {
        st
    } else {
        let v = repeat(p as nat, ps, parts);
        let next = if v <= u64::MAX && range.start <= v <= range.end {
            take_candidate(st, v as u64)
        } else {
            st
        };
        scan_parts(next, range, ps, parts, p + 1, last)
    }
}

/// Tries every digit count `d ..= dhi` that the part count divides.
pub open spec fn scan_digits(st: Tally, range: Range, parts: nat, d: int, dhi: int) -> Tally
    decreases dhi + 1 - d,
{
    if d > dhi {
        st
    } else {
        let ps = (d / parts as int) as nat;
        let next = if d % parts as int == 0 && ps >= 1 {
            scan_parts(st, range, ps, parts, part_bounds(range, ps).0 as int, part_bounds(range, ps).1 as int)
        } else {
            st
        };
        scan_digits(next, range, parts, d + 1, dhi)
    }
}

/// The tally of the numbers in `range` made of one part repeated `parts`
/// times, starting from `st`.
pub open spec fn invalid_tally(st: Tally, range: Range, parts: nat) -> Tally {
    scan_digits(st, range, parts, num_digits(range.start as nat) as int, num_digits(range.end as nat) as int)
}

proof fn lemma_take_grows(st: Tally, v: u64)
    ensures
        take_candidate(st, v).0 >= st.0,
        take_candidate(st, v).1 is Some <==> st.1 is Some,
{
}

proof fn lemma_scan_parts_grows(st: Tally, range: Range, ps: nat, parts: nat, p: int, last: int)
    ensures
        scan_parts(st, range, ps, parts, p, last).0 >= st.0,
        scan_parts(st, range, ps, parts, p, last).1 is Some <==> st.1 is Some,
    decreases last + 1 - p,
{
    if !(p > last || p < 0) {
        let v = repeat(p as nat, ps, parts);
        let next = if v <= u64::MAX && range.start <= v <= range.end {
            take_candidate(st, v as u64)
        } else {
            st
        };
        lemma_take_grows(st, v as u64);
        lemma_scan_parts_grows(next, range, ps, parts, p + 1, last);
    }
}

proof fn lemma_scan_digits_grows(st: Tally, range: Range, parts: nat, d: int, dhi: int)
    ensures
        scan_digits(st, range, parts, d, dhi).0 >= st.0,
        scan_digits(st, range, parts, d, dhi).1 is Some <==> st.1 is Some,
    decreases dhi + 1 - d,
{
    if d <= dhi {
        let ps = (d / parts as int) as nat;
        let next = if d % parts as int == 0 && ps >= 1 {
            scan_parts(st, range, ps, parts, part_bounds(range, ps).0 as int, part_bounds(range, ps).1 as int)
        } else {
            st
        };
        lemma_scan_parts_grows(st, range, ps, parts, part_bounds(range, ps).0 as int, part_bounds(range, ps).1 as int);
        lemma_scan_digits_grows(next, range, parts, d + 1, dhi);
    }
}

/// Adds to the running total every number in `range` made of one part
/// repeated `num_parts` times; with a set, only numbers not yet in it count,
/// and each counted number joins it.
pub fn sum_invalids(range: &Range, num_parts: u8, set: &mut Option<HashSet<u64>>) -> (r: u64)
    requires
        num_parts >= 2,
        invalid_tally((0, tracked_view(*old(set))), *range, num_parts as nat).0 <= u64::MAX,
    ensures
        r == invalid_tally((0, tracked_view(*old(set))), *range, num_parts as nat).0,
        tracked_view(*final(set)) == invalid_tally((0, tracked_view(*old(set))), *range, num_parts as nat).1,
{
    proof {
        lemma_scan_digits_grows(
            (0, tracked_view(*old(set))),
            *range,
            num_parts as nat,
            num_digits(range.start as nat) as int,
            num_digits(range.end as nat) as int,
        );
    }
    match tally_invalids(range, num_parts, set) {
        Some(v) => v,
        None => 0,
    }
}

/// `sum_invalids`, or `None` when the sum exceeds `u64`.
pub fn tally_invalids(range: &Range, num_parts: u8, set: &mut Option<HashSet<u64>>) -> (r: Option<u64>)
    requires
        num_parts >= 2,
    ensures
        tracked_view(*old(set)) is Some <==> tracked_view(*final(set)) is Some,
        invalid_tally((0, tracked_view(*old(set))), *range, num_parts as nat).0 <= u64::MAX ==> r == Some(
            invalid_tally((0, tracked_view(*old(set))), *range, num_parts as nat).0 as u64,
        ) && tracked_view(*final(set)) == invalid_tally((0, tracked_view(*old(set))), *range, num_parts as nat).1,
        invalid_tally((0, tracked_view(*old(set))), *range, num_parts as nat).0 > u64::MAX ==> r is None,
{
    broadcast use vstd::std_specs::hash::group_hash_axioms;
    let ghost fin = invalid_tally((0, tracked_view(*old(set))), *range, num_parts as nat);
    let mut sum: u64 = 0;
    let start_digits = digits(range.start);
    let end_digits = digits(range.end);
    proof {
        lemma_digits_bounds(range.end as nat);
        if end_digits > 20 {
            lemma_pow10_monotone(20, (end_digits - 1) as nat);
            reveal_with_fuel(pow10, 21);
        }
        reveal_with_fuel(pow10, 11);
    }
    let mut d: u8 = start_digits;
    while d <= end_digits
        invariant
            end_digits == num_digits(range.end as nat) <= 20,
            start_digits == num_digits(range.start as nat),
            num_parts >= 2,
            d <= end_digits + 1 || d == start_digits,
            scan_digits((sum as int, tracked_view(*set)), *range, num_parts as nat, d as int, end_digits as int) == fin,
            tracked_view(*old(set)) is Some <==> tracked_view(*set) is Some,
            fin == invalid_tally((0, tracked_view(*old(set))), *range, num_parts as nat),
            pow10(10) == 10000000000,
        decreases end_digits + 1 - d,
    {
        let ps: u8 = d / num_parts;
        if d % num_parts == 0 && ps >= 1 {
            assert(ps <= 10) by (nonlinear_arith)
                requires
                    d <= 20,
                    num_parts >= 2,
                    ps == d / num_parts,
            ;
            assert(ps < d) by (nonlinear_arith)
                requires
                    num_parts >= 2,
                    ps == d / num_parts,
                    ps >= 1,
            ;
            proof {
                lemma_pow10_monotone(ps as nat, 10);
                lemma_pow10_positive((ps - 1) as nat);
            }
            let first0: u64 = if ps <= start_digits {
                prefix(range.start, ps)
            } else {
                pow10_u64((ps - 1) as u32)
            };
            let last0: u64 = prefix(range.end, ps);
            let (first, last) = if last0 < first0 {
                (pow10_u64((ps - 1) as u32), pow10_u64(ps as u32) - 1)
            } else {
                (first0, last0)
            };
            assert(part_bounds(*range, ps as nat) == (first as nat, last as nat));
            proof {
                lemma_digits_bounds(range.end as nat);
                if range.end > 0 {
                    lemma_pow10_monotone((end_digits - ps) as nat, (end_digits - 1) as nat);
                    lemma_pow10_monotone(1, (end_digits - ps) as nat);
                    assert(pow10(1) == 10) by { reveal_with_fuel(pow10, 2); }
                    let q = pow10((end_digits - ps) as nat) as int;
                    let e = range.end as int;
                    assert(e / q < u64::MAX) by (nonlinear_arith)
                        requires
                            q >= 10,
                            0 <= e <= u64::MAX,
                    ;
                }
            }
            let ghost after_d = scan_parts((sum as int, tracked_view(*set)), *range, ps as nat, num_parts as nat, first as int, last as int);
            let mut p: u64 = first;
            while p <= last
                invariant
                    last < u64::MAX,
                    first <= p <= last + 1,
                    pow10(ps as nat) <= u64::MAX,
                    scan_parts((sum as int, tracked_view(*set)), *range, ps as nat, num_parts as nat, p as int, last as int) == after_d,
                    scan_digits(after_d, *range, num_parts as nat, d + 1, end_digits as int) == fin,
                    tracked_view(*old(set)) is Some <==> tracked_view(*set) is Some,
                    fin == invalid_tally((0, tracked_view(*old(set))), *range, num_parts as nat),
                decreases last + 1 - p,
            {
                let ghost st = (sum as int, tracked_view(*set));
                let ghost v0 = repeat(p as nat, ps as nat, num_parts as nat);
                let ghost next = if v0 <= u64::MAX && range.start <= v0 <= range.end {
                    take_candidate(st, v0 as u64)
                } else {
                    st
                };
                let c = compose_checked(p, ps, num_parts);
                match c {
                    Some(v) => {
                        if range.has(v) {
                            proof {
                                lemma_scan_parts_grows(take_candidate(st, v), *range, ps as nat, num_parts as nat, p + 1, last as int);
                                lemma_scan_digits_grows(after_d, *range, num_parts as nat, d + 1, end_digits as int);
                                assert(after_d == scan_parts(take_candidate(st, v), *range, ps as nat, num_parts as nat, p + 1, last as int));
                            }
                            let counted = match set {
                                Some(s) => s.insert(v),
                                None => true,
                            };
                            if counted {
                                match sum.checked_add(v) {
                                    Some(t) => {
                                        sum = t;
                                    },
                                    None => {
                                        assert(take_candidate(st, v).0 == sum + v);
                                        return None;
                                    },
                                }
                            }
                        }
                    },
                    None => {},
                }
                assert((sum as int, tracked_view(*set)) == next);
                p = p + 1;
            }
        }
        d = d + 1;
    }
    Some(sum)
}

/// The range that a piece `start-end` spells; pieces after a second dash
/// are ignored.
pub open spec fn range_of(piece: Seq<u8>) -> Option<Range> {
    let p = split(piece, 45u8);
    if p.len() >= 2 && unsigned_value(p[0]) is Some && unsigned_value(p[1]) is Some {
        Some(Range { start: unsigned_value(p[0]).unwrap(), end: unsigned_value(p[1]).unwrap() })
    } else {
        None
    }
}

/// The ranges listed, separated by commas, on the first line of `s`.
pub open spec fn ranges_of(s: Seq<u8>) -> Option<Seq<Range>> {
    let ls = lines(s);
    if ls.len() == 0 {
        None
    } else {
        let pieces = split(ls[0], 44u8);
        if forall|i: int| 0 <= i < pieces.len() ==> #[trigger] range_of(pieces[i]) is Some {
            Some(Seq::new(pieces.len(), |i: int| range_of(pieces[i]).unwrap()))
        } else {
            None
        }
    }
}

/// Adds the invalid identifiers of `r` for `parts` to the running tally.
pub open spec fn job_step(st: Tally, r: Range, parts: nat) -> Tally {
    let t = invalid_tally((0, st.1), r, parts);
    (st.0 + t.0, t.1)
}

/// The tally after the ranges `rs[i ..]`, in order, for `parts`.
pub open spec fn run_ranges(st: Tally, rs: Seq<Range>, parts: nat, i: int) -> Tally
    decreases rs.len() - i,
{
    if i >= rs.len() || i < 0 {
        st
    } else {
        run_ranges(job_step(st, rs[i], parts), rs, parts, i + 1)
    }
}

/// The tally after every range, for each part count `p .. hi` in turn.
pub open spec fn run_parts(st: Tally, rs: Seq<Range>, p: int, hi: int) -> Tally
    decreases hi - p,
{
    if p >= hi || p < 0 {
        st
    } else {
        run_parts(run_ranges(st, rs, p as nat, 0), rs, p + 1, hi)
    }
}

proof fn lemma_job_grows(st: Tally, r: Range, parts: nat)
    ensures
        job_step(st, r, parts).0 >= st.0,
        job_step(st, r, parts).1 is Some <==> st.1 is Some,
{
    lemma_scan_digits_grows(
        (0, st.1),
        r,
        parts,
        num_digits(r.start as nat) as int,
        num_digits(r.end as nat) as int,
    );
}

proof fn lemma_run_ranges_grows(st: Tally, rs: Seq<Range>, parts: nat, i: int)
    ensures
        run_ranges(st, rs, parts, i).0 >= st.0,
        run_ranges(st, rs, parts, i).1 is Some <==> st.1 is Some,
    decreases rs.len() - i,
{
    if !(i >= rs.len() || i < 0) {
        lemma_job_grows(st, rs[i], parts);
        lemma_run_ranges_grows(job_step(st, rs[i], parts), rs, parts, i + 1);
    }
}

proof fn lemma_run_parts_grows(st: Tally, rs: Seq<Range>, p: int, hi: int)
    ensures
        run_parts(st, rs, p, hi).0 >= st.0,
        run_parts(st, rs, p, hi).1 is Some <==> st.1 is Some,
    decreases hi - p,
{
    if !(p >= hi || p < 0) {
        lemma_run_ranges_grows(st, rs, p as nat, 0);
        lemma_run_parts_grows(run_ranges(st, rs, p as nat, 0), rs, p + 1, hi);
    }
}

/// The range that one piece `start-end` spells.
pub fn parse_range(range_str: &[u8]) -> (r: Option<Range>)
    ensures
        r == range_of(range_str@),
{
    let parts = split_bytes(range_str, 45u8);
    assert(views(parts@).len() == parts@.len());
    if parts.len() < 2 {
        return None;
    }
    assert(parts@[0]@ == split(range_str@, 45u8)[0]);
    assert(parts@[1]@ == split(range_str@, 45u8)[1]);
    match (parse_u64(parts[0].as_slice()), parse_u64(parts[1].as_slice())) {
        (Some(start), Some(end)) => Some(Range { start, end }),
        _ => None,
    }
}

/// Reads the ranges on the first line of `input`.
pub fn parse_ranges(input: &str) -> (r: Option<Vec<Range>>)
    ensures
        ranges_of(input.spec_bytes()) is None ==> r is None,
        ranges_of(input.spec_bytes()) is Some ==> r is Some && r.unwrap()@ == ranges_of(input.spec_bytes()).unwrap(),
{
    let ls = split_lines(input.as_bytes());
    assert(views(ls@).len() == ls@.len());
    if ls.len() == 0 {
        return None;
    }
    let ghost lv = lines(input.spec_bytes());
    assert(ls@[0]@ == lv[0]);
    let pieces = split_bytes(ls[0].as_slice(), 44u8);
    let ghost pv = split(lv[0], 44u8);
    assert(views(pieces@).len() == pieces@.len());
    let mut ranges: Vec<Range> = Vec::new();
    let mut i: usize = 0;
    while i < pieces.len()
        invariant
            views(pieces@) == pv,
            pv == split(lines(input.spec_bytes())[0], 44u8),
            lines(input.spec_bytes()).len() > 0,
            pieces@.len() == pv.len(),
            i <= pv.len(),
            ranges@.len() == i,
            forall|t: int| 0 <= t < i ==> #[trigger] range_of(pv[t]) == Some(ranges@[t]),
        decreases pv.len() - i,
    {
        assert(pieces@[i as int]@ == pv[i as int]);
        match parse_range(pieces[i].as_slice()) {
            Some(r) => {
                ranges.push(r);
            },
            None => {
                assert(range_of(pv[i as int]) is None);
                assert(ranges_of(input.spec_bytes()) is None);
                return None;
            },
        }
        i = i + 1;
    }
    proof {
        assert(ranges@ =~= ranges_of(input.spec_bytes()).unwrap());
    }
    Some(ranges)
}

/// Adds to `sum` the invalid identifiers of every range for `parts`, in
/// order; `None` when the total exceeds `u64`.
pub fn sum_ranges(ranges: &Vec<Range>, parts: u8, sum: u64, set: &mut Option<HashSet<u64>>) -> (r: Option<u64>)
    requires
        parts >= 2,
    ensures
        tracked_view(*old(set)) is Some <==> tracked_view(*final(set)) is Some,
        run_ranges((sum as int, tracked_view(*old(set))), ranges@, parts as nat, 0).0 <= u64::MAX ==> r == Some(
            run_ranges((sum as int, tracked_view(*old(set))), ranges@, parts as nat, 0).0 as u64,
        ) && tracked_view(*final(set)) == run_ranges((sum as int, tracked_view(*old(set))), ranges@, parts as nat, 0).1,
        run_ranges((sum as int, tracked_view(*old(set))), ranges@, parts as nat, 0).0 > u64::MAX ==> r is None,
{
    let ghost fin = run_ranges((sum as int, tracked_view(*old(set))), ranges@, parts as nat, 0);
    let mut acc: u64 = sum;
    let mut i: usize = 0;
    while i < ranges.len()
        invariant
            i <= ranges@.len(),
            parts >= 2,
            run_ranges((acc as int, tracked_view(*set)), ranges@, parts as nat, i as int) == fin,
            fin == run_ranges((sum as int, tracked_view(*old(set))), ranges@, parts as nat, 0),
            tracked_view(*old(set)) is Some <==> tracked_view(*set) is Some,
        decreases ranges@.len() - i,
    {
        let ghost st = (acc as int, tracked_view(*set));
        proof {
            lemma_run_ranges_grows(job_step(st, ranges@[i as int], parts as nat), ranges@, parts as nat, i + 1);
            lemma_job_grows(st, ranges@[i as int], parts as nat);
            lemma_scan_digits_grows(
                (0, st.1),
                ranges@[i as int],
                parts as nat,
                num_digits(ranges@[i as int].start as nat) as int,
                num_digits(ranges@[i as int].end as nat) as int,
            );
        }
        match tally_invalids(&ranges[i], parts, set) {
            Some(t) => match acc.checked_add(t) {
                Some(a) => {
                    acc = a;
                },
                None => {
                    return None;
                },
            },
            None => {
                return None;
            },
        }
        i = i + 1;
    }
    Some(acc)
}

/// The sum of the identifiers in the listed ranges made of one part
/// repeated twice.
pub fn part_one(input: &str) -> (r: Option<u64>)
    ensures
        ranges_of(input.spec_bytes()) is None ==> r is None,
        ranges_of(input.spec_bytes()) is Some ==> {
            let t = run_ranges((0, None), ranges_of(input.spec_bytes()).unwrap(), 2, 0).0;
            &&& t <= u64::MAX ==> r == Some(t as u64)
            &&& t > u64::MAX ==> r is None
        },
{
    let ranges = match parse_ranges(input) {
        Some(rs) => rs,
        None => {
            return None;
        },
    };
    let mut set: Option<HashSet<u64>> = None;
    sum_ranges(&ranges, 2, 0, &mut set)
}

/// The sum of the identifiers in the listed ranges made of one part
/// repeated two to seven times, each identifier counted once.
pub fn part_two(input: &str) -> (r: Option<u64>)
    ensures
        ranges_of(input.spec_bytes()) is None ==> r is None,
        ranges_of(input.spec_bytes()) is Some ==> {
            let t = run_parts((0, Some(Set::empty())), ranges_of(input.spec_bytes()).unwrap(), 2, 8).0;
            &&& t <= u64::MAX ==> r == Some(t as u64)
            &&& t > u64::MAX ==> r is None
        },
{
    let ranges = match parse_ranges(input) {
        Some(rs) => rs,
        None => {
            return None;
        },
    };
    let ghost rs = ranges@;
    let mut set: Option<HashSet<u64>> = Some(HashSet::new());
    let ghost fin = run_parts((0, Some(Set::empty())), rs, 2, 8);
    let mut sum: u64 = 0;
    let mut parts: u8 = 2;
    while parts < 8
        invariant
            2 <= parts <= 8,
            ranges@ == rs,
            rs == ranges_of(input.spec_bytes()).unwrap(),
            ranges_of(input.spec_bytes()) is Some,
            fin == run_parts((0, Some(Set::empty())), rs, 2, 8),
            run_parts((sum as int, tracked_view(set)), rs, parts as int, 8) == fin,
        decreases 8 - parts,
    {
        let ghost st = (sum as int, tracked_view(set));
        proof {
            lemma_run_parts_grows(run_ranges(st, rs, parts as nat, 0), rs, parts + 1, 8);
            lemma_run_ranges_grows(st, rs, parts as nat, 0);
            assert(run_parts(st, rs, parts as int, 8) == run_parts(run_ranges(st, rs, parts as nat, 0), rs, parts + 1, 8));
        }
        match sum_ranges(&ranges, parts, sum, &mut set) {
            Some(t) => {
                assert((t as int, tracked_view(set)) == run_ranges(st, rs, parts as nat, 0));
                sum = t;
            },
            None => {
                return None;
            },
        }
        parts = parts + 1;
    }
    Some(sum)
}

} // verus!
