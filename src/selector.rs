use vstd::prelude::*;

verus! {

/// A candidate connection: squared distance, then the two endpoint indices.
pub type Edge = (u64, usize, usize);

/// The total order on edges: by distance, then by the first index, then by
/// the second.
pub open spec fn edge_lt(a: Edge, b: Edge) -> bool {
    a.0 < b.0 || (a.0 == b.0 && (a.1 < b.1 || (a.1 == b.1 && a.2 < b.2)))
}

/// `s` with `e` placed after every element that does not exceed it, counting
/// from the back.
pub open spec fn insert_ascending(s: Seq<Edge>, e: Edge) -> Seq<Edge>
    decreases s.len(),
{
    if s.len() == 0 {
        seq![e]
    } else if !edge_lt(e, s.last()) {
        s.push(e)
    } else {
        insert_ascending(s.drop_last(), e).push(s.last())
    }
}

/// What a selector of capacity `cap` holding `s` holds after `e` is offered:
/// while not full it takes `e`; once full, `e` replaces the last (largest)
/// held edge when its distance is strictly smaller.
pub open spec fn offer_smallest(s: Seq<Edge>, cap: nat, e: Edge) -> Seq<Edge> {
    if s.len() < cap {
        insert_ascending(s, e)
    } else if s.len() > 0 && e.0 < s.last().0 {
        insert_ascending(s.drop_last(), e)
    } else {
        s
    }
}

/// `s` with `v` placed after every element at least as large, counting from
/// the back.
pub open spec fn insert_descending(s: Seq<u64>, v: u64) -> Seq<u64>
    decreases s.len(),
{
    if s.len() == 0 {
        seq![v]
    } else if v <= s.last() {
        s.push(v)
    } else {
        insert_descending(s.drop_last(), v).push(s.last())
    }
}

/// The mirror of `offer_smallest`: once full, `v` replaces the last
/// (smallest) held value when it is strictly larger.
pub open spec fn offer_largest(s: Seq<u64>, cap: nat, v: u64) -> Seq<u64> {
    if s.len() < cap {
        insert_descending(s, v)
    } else if s.len() > 0 && s.last() < v {
        insert_descending(s.drop_last(), v)
    } else {
        s
    }
}

pub open spec fn sorted_ascending(s: Seq<Edge>) -> bool {
    forall|i: int, j: int| 0 <= i < j < s.len() ==> !edge_lt(#[trigger] s[j], #[trigger] s[i])
}

pub fn edge_less(a: &Edge, b: &Edge) -> (r: bool)
    ensures
        r == edge_lt(*a, *b),
{
    a.0 < b.0 || (a.0 == b.0 && (a.1 < b.1 || (a.1 == b.1 && a.2 < b.2)))
}

/// Keeps the `cap` edges of smallest distance among those offered, in
/// ascending order.
pub struct SmallestK {
    items: Vec<Edge>,
    cap: usize,
}

impl View for SmallestK {
    type V = Seq<Edge>;

    closed spec fn view(&self) -> Seq<Edge> {
        self.items@
    }
}

impl SmallestK {
    pub closed spec fn capacity(&self) -> nat {
        self.cap as nat
    }

    pub closed spec fn wf(&self) -> bool {
        self.items@.len() <= self.cap
    }

    pub fn with_capacity(cap: usize) -> (r: SmallestK)
        ensures
            r.wf(),
            r@ == Seq::<Edge>::empty(),
            r.capacity() == cap,
    {
        SmallestK { items: Vec::new(), cap }
    }

    pub fn len(&self) -> (r: usize)
        ensures
            r == self@.len(),
    {
        self.items.len()
    }

    /// The largest held edge.
    pub fn peek(&self) -> (r: Option<Edge>)
        ensures
            self@.len() == 0 ==> r is None,
            self@.len() > 0 ==> r == Some(self@.last()),
    {
        if self.items.len() == 0 {
            None
        } else {
            Some(self.items[self.items.len() - 1])
        }
    }

    fn insert(&mut self, e: Edge)
        requires
            old(self).items@.len() < usize::MAX,
        ensures
            final(self).items@ == insert_ascending(old(self).items@, e),
            final(self).cap == old(self).cap,
    {
        let ghost s = self.items@;
        let mut p: usize = self.items.len();
        proof {
            assert(s.take(p as int) =~= s);
            assert(insert_ascending(s, e) + s.skip(p as int) =~= insert_ascending(s, e));
        }
        while p > 0 && edge_less(&e, &self.items[p - 1])
            invariant
                p <= s.len(),
                self.items@ == s,
                insert_ascending(s, e) == insert_ascending(s.take(p as int), e) + s.skip(p as int),
            decreases p,
        {
            proof {
                let t = s.take(p as int);
                assert(t.drop_last() =~= s.take(p - 1));
                assert(insert_ascending(t, e) == insert_ascending(s.take(p - 1), e).push(s[p - 1]));
                assert(insert_ascending(s.take(p - 1), e).push(s[p - 1]) + s.skip(p as int)
                    =~= insert_ascending(s.take(p - 1), e) + s.skip(p - 1));
            }
            p = p - 1;
        }
        proof {
            let t = s.take(p as int);
            if p > 0 {
                assert(t.last() == s[p - 1]);
            }
            assert(insert_ascending(t, e) == t.push(e));
            assert(t.push(e) + s.skip(p as int) =~= s.insert(p as int, e));
        }
        self.items.insert(p, e);
    }

    /// Offers `e`; see `offer_smallest`.
    pub fn offer(&mut self, e: Edge)
        requires
            old(self).wf(),
        ensures
            final(self).wf(),
            final(self).capacity() == old(self).capacity(),
            final(self)@ == offer_smallest(old(self)@, old(self).capacity(), e),
    {
        if self.items.len() < self.cap {
            self.insert(e);
            proof { lemma_insert_ascending_len(old(self).items@, e); }
        } else if self.items.len() > 0 && e.0 < self.items[self.items.len() - 1].0 {
            let _ = self.items.pop();
            proof { assert(self.items@ =~= old(self).items@.drop_last()); }
            self.insert(e);
            proof { lemma_insert_ascending_len(old(self).items@.drop_last(), e); }
        }
    }

    /// The held edges in ascending order.
    pub fn into_sorted_vec(self) -> (r: Vec<Edge>)
        ensures
            r@ == self@,
    {
        self.items
    }
}

pub proof fn lemma_insert_ascending_len(s: Seq<Edge>, e: Edge)
    ensures
        insert_ascending(s, e).len() == s.len() + 1,
    decreases s.len(),
{
    if s.len() > 0 && edge_lt(e, s.last()) {
        lemma_insert_ascending_len(s.drop_last(), e);
    }
}

pub proof fn lemma_insert_descending_len(s: Seq<u64>, v: u64)
    ensures
        insert_descending(s, v).len() == s.len() + 1,
    decreases s.len(),
{
    if s.len() > 0 && v > s.last() {
        lemma_insert_descending_len(s.drop_last(), v);
    }
}

/// Keeps the `cap` largest values among those offered, in descending order.
pub struct LargestK {
    items: Vec<u64>,
    cap: usize,
}

impl View for LargestK {
    type V = Seq<u64>;

    closed spec fn view(&self) -> Seq<u64> {
        self.items@
    }
}

impl LargestK {
    pub closed spec fn capacity(&self) -> nat {
        self.cap as nat
    }

    pub closed spec fn wf(&self) -> bool {
        self.items@.len() <= self.cap
    }

    pub fn with_capacity(cap: usize) -> (r: LargestK)
        ensures
            r.wf(),
            r@ == Seq::<u64>::empty(),
            r.capacity() == cap,
    {
        LargestK { items: Vec::new(), cap }
    }

    fn insert(&mut self, v: u64)
        requires
            old(self).items@.len() < usize::MAX,
        ensures
            final(self).items@ == insert_descending(old(self).items@, v),
            final(self).cap == old(self).cap,
    {
        let ghost s = self.items@;
        let mut p: usize = self.items.len();
        proof {
            assert(s.take(p as int) =~= s);
            assert(insert_descending(s, v) + s.skip(p as int) =~= insert_descending(s, v));
        }
        while p > 0 && v > self.items[p - 1]
            invariant
                p <= s.len(),
                self.items@ == s,
                insert_descending(s, v) == insert_descending(s.take(p as int), v) + s.skip(p as int),
            decreases p,
        {
            proof {
                let t = s.take(p as int);
                assert(t.drop_last() =~= s.take(p - 1));
                assert(insert_descending(t, v) == insert_descending(s.take(p - 1), v).push(s[p - 1]));
                assert(insert_descending(s.take(p - 1), v).push(s[p - 1]) + s.skip(p as int)
                    =~= insert_descending(s.take(p - 1), v) + s.skip(p - 1));
            }
            p = p - 1;
        }
        proof {
            let t = s.take(p as int);
            if p > 0 {
                assert(t.last() == s[p - 1]);
            }
            assert(insert_descending(t, v) == t.push(v));
            assert(t.push(v) + s.skip(p as int) =~= s.insert(p as int, v));
        }
        self.items.insert(p, v);
    }

    /// Offers `v`; see `offer_largest`.
    pub fn offer(&mut self, v: u64)
        requires
            old(self).wf(),
        ensures
            final(self).wf(),
            final(self).capacity() == old(self).capacity(),
            final(self)@ == offer_largest(old(self)@, old(self).capacity(), v),
    {
        if self.items.len() < self.cap {
            self.insert(v);
            proof { lemma_insert_descending_len(old(self).items@, v); }
        } else if self.items.len() > 0 && self.items[self.items.len() - 1] < v {
            let _ = self.items.pop();
            proof { assert(self.items@ =~= old(self).items@.drop_last()); }
            self.insert(v);
            proof { lemma_insert_descending_len(old(self).items@.drop_last(), v); }
        }
    }

    /// The held values in descending order.
    pub fn into_vec(self) -> (r: Vec<u64>)
        ensures
            r@ == self@,
    {
        self.items
    }
}

} // verus!
