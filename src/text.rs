use vstd::prelude::*;

verus! {

/// The pieces of `s` between occurrences of `sep`; there is always at least
/// one piece.
pub open spec fn split(s: Seq<u8>, sep: u8) -> Seq<Seq<u8>>
    decreases s.len(),
{
    if s.len() == 0 {
        seq![Seq::<u8>::empty()]
    } else {
        let p = split(s.drop_last(), sep);
        if s.last() == sep {
            p.push(Seq::<u8>::empty())
        } else {
            p.update(p.len() - 1, p.last().push(s.last()))
        }
    }
}

/// The lines of `s`: its pieces between newlines, without the empty piece
/// that a final newline leaves.
pub open spec fn lines(s: Seq<u8>) -> Seq<Seq<u8>> {
    let p = split(s, 10u8);
    if p.last().len() == 0 {
        p.drop_last()
    } else {
        p
    }
}

pub open spec fn views(v: Seq<Vec<u8>>) -> Seq<Seq<u8>> {
    v.map_values(|x: Vec<u8>| x@)
}

pub open spec fn is_digit(b: u8) -> bool {
    48 <= b <= 57
}

pub open spec fn all_digits(s: Seq<u8>) -> bool {
    forall|i: int| 0 <= i < s.len() ==> is_digit(#[trigger] s[i])
}

/// The number that the decimal digits `s` spell.
pub open spec fn decimal(s: Seq<u8>) -> int
    decreases s.len(),
{
    if s.len() == 0 {
        0
    } else {
        decimal(s.drop_last()) * 10 + (s.last() - 48)
    }
}

/// The unsigned integer that `s` spells, if it is one that fits in a `u64`.
pub open spec fn unsigned_value(s: Seq<u8>) -> Option<u64> {
    if s.len() > 0 && all_digits(s) && decimal(s) <= u64::MAX {
        Some(decimal(s) as u64)
    } else {
        None
    }
}

/// The integer that `s` spells, with an optional leading minus sign, if it
/// fits in an `i64`.
pub open spec fn signed_value(s: Seq<u8>) -> Option<i64> {
    if s.len() > 0 && s[0] == 45u8 {
        let m = s.skip(1);
        if m.len() > 0 && all_digits(m) && decimal(m) <= 0x8000_0000_0000_0000 {
            Some((-decimal(m)) as i64)
        } else {
            None
        }
    } else if s.len() > 0 && all_digits(s) && decimal(s) <= i64::MAX {
        Some(decimal(s) as i64)
    } else {
        None
    }
}

proof fn lemma_split_nonempty(s: Seq<u8>, sep: u8)
    ensures
        split(s, sep).len() >= 1,
    decreases s.len(),
{
    if s.len() > 0 {
        lemma_split_nonempty(s.drop_last(), sep);
    }
}

/// Splits `s` at each occurrence of `sep`.
pub fn split_bytes(s: &[u8], sep: u8) -> (r: Vec<Vec<u8>>)
    ensures
        views(r@) == split(s@, sep),
{
    let mut pieces: Vec<Vec<u8>> = Vec::new();
    let mut cur: Vec<u8> = Vec::new();
    let mut i: usize = 0;
    proof {
        assert(s@.take(0) =~= Seq::<u8>::empty());
        assert(views(pieces@).push(cur@) =~= split(s@.take(0), sep));
    }
    while i < s.len()
        invariant
            i <= s@.len(),
            views(pieces@).push(cur@) == split(s@.take(i as int), sep),
        decreases s@.len() - i,
    {
        let b = s[i];
        proof {
            assert(s@.take(i + 1).drop_last() =~= s@.take(i as int));
            lemma_split_nonempty(s@.take(i as int), sep);
        }
        if b == sep {
            let ghost old_pieces = pieces@;
            pieces.push(cur);
            cur = Vec::new();
            proof {
                assert(views(pieces@) =~= views(old_pieces).push(views(pieces@).last()));
                assert(views(pieces@).push(cur@) =~= split(s@.take(i + 1), sep));
            }
        } else {
            let ghost old_cur = cur@;
            cur.push(b);
            proof {
                assert(views(pieces@).push(cur@) =~= split(s@.take(i + 1), sep));
            }
        }
        i = i + 1;
    }
    let ghost old_pieces = pieces@;
    pieces.push(cur);
    proof {
        assert(s@.take(i as int) =~= s@);
        assert(views(pieces@) =~= views(old_pieces).push(views(pieces@).last()));
    }
    pieces
}

/// The lines of `s`.
pub fn split_lines(s: &[u8]) -> (r: Vec<Vec<u8>>)
    ensures
        views(r@) == lines(s@),
{
    let mut p = split_bytes(s, 10u8);
    proof { lemma_split_nonempty(s@, 10u8); }
    let last_len = p[p.len() - 1].len();
    if last_len == 0 {
        let _ = p.pop();
        proof { assert(views(p@) =~= split(s@, 10u8).drop_last()); }
    }
    p
}

proof fn lemma_decimal_prefix(s: Seq<u8>, k: int)
    requires
        0 <= k <= s.len(),
        all_digits(s),
    ensures
        decimal(s.take(k)) <= decimal(s),
        decimal(s) >= 0,
    decreases s.len(),
{
    if s.len() > 0 {
        let d = s.drop_last();
        assert(all_digits(d)) by {
            assert forall|i: int| 0 <= i < d.len() implies is_digit(#[trigger] d[i]) by {
                assert(d[i] == s[i]);
            }
        }
        assert(is_digit(s[s.len() - 1]));
        if k == s.len() {
            lemma_decimal_prefix(d, k - 1);
            assert(s.take(k) =~= s);
        } else {
            lemma_decimal_prefix(d, k);
            assert(d.take(k) =~= s.take(k));
        }
    } else {
        assert(s.take(k) =~= s);
    }
}

/// The number that the decimal digits `s` spell, or `None` when `s` is not a
/// non-empty run of digits or the number exceeds `u64`.
pub fn parse_u64(s: &[u8]) -> (r: Option<u64>)
    ensures
        r == unsigned_value(s@),
{
    let n = s.len();
    if n == 0 {
        return None;
    }
    let mut i: usize = 0;
    while i < n
        invariant
            i <= n == s@.len(),
            forall|t: int| 0 <= t < i ==> is_digit(#[trigger] s@[t]),
        decreases n - i,
    {
        if s[i] < 48 || s[i] > 57 {
            return None;
        }
        i = i + 1;
    }
    let mut acc: u64 = 0;
    let mut i: usize = 0;
    proof { assert(s@.take(0) =~= Seq::<u8>::empty()); }
    while i < n
        invariant
            i <= n == s@.len(),
            all_digits(s@),
            acc == decimal(s@.take(i as int)),
        decreases n - i,
    {
        proof {
            assert(s@.take(i + 1).drop_last() =~= s@.take(i as int));
            assert(is_digit(s@[i as int]));
        }
        let d = (s[i] - 48) as u64;
        match acc.checked_mul(10) {
            Some(m) => match m.checked_add(d) {
                Some(v) => {
                    acc = v;
                },
                None => {
                    proof { lemma_decimal_prefix(s@, i + 1); }
                    return None;
                },
            },
            None => {
                proof {
                    lemma_decimal_prefix(s@, i + 1);
                }
                return None;
            },
        }
        i = i + 1;
    }
    proof { assert(s@.take(n as int) =~= s@); }
    Some(acc)
}

/// The integer that `s` spells, with an optional leading minus sign, or
/// `None` when `s` is not of that form or the integer exceeds `i64`.
pub fn parse_i64(s: &[u8]) -> (r: Option<i64>)
    ensures
        r == signed_value(s@),
{
    if s.len() > 0 && s[0] == 45u8 {
        let m = slice_from(s, 1);
        let parsed = parse_u64(m);
        proof {
            if all_digits(s@.skip(1)) {
                lemma_decimal_prefix(s@.skip(1), 0);
            }
        }
        match parsed {
            Some(v) => {
                if v <= 0x8000_0000_0000_0000u64 {
                    if v == 0x8000_0000_0000_0000u64 {
                        Some(i64::MIN)
                    } else {
                        Some(-(v as i64))
                    }
                } else {
                    None
                }
            },
            None => None,
        }
    } else {
        proof {
            if all_digits(s@) {
                lemma_decimal_prefix(s@, 0);
            }
        }
        match parse_u64(s) {
            Some(v) => {
                if v <= i64::MAX as u64 {
                    Some(v as i64)
                } else {
                    None
                }
            },
            None => None,
        }
    }
}

/// The bytes of `s` from index `from` on.
pub fn slice_from(s: &[u8], from: usize) -> (r: &[u8])
    requires
        from <= s@.len(),
    ensures
        r@ == s@.skip(from as int),
{
    let r = vstd::slice::slice_subrange(s, from, s.len());
    proof { assert(r@ =~= s@.skip(from as int)); }
    r
}

} // verus!
