use vstd::prelude::*;
use vstd::set_lib::*;

verus! {

/// The members of the cluster whose representative is `r`, under the
/// assignment `roots` of each element to its representative.
pub open spec fn class(roots: Seq<int>, r: int) -> Set<int> {
    Set::new(|i: int| 0 <= i < roots.len() && roots[i] == r)
}

pub open spec fn class_size(roots: Seq<int>, r: int) -> nat {
    class(roots, r).len()
}

/// Every element of cluster `from` moves into cluster `to`.
pub open spec fn relabel(roots: Seq<int>, from: int, to: int) -> Seq<int> {
    Seq::new(roots.len(), |k: int| if roots[k] == from { to } else { roots[k] })
}

/// The assignment after joining the clusters of `a` and `b`: the smaller
/// cluster moves into the larger one, and on equal sizes the cluster of `b`
/// moves into that of `a`.
pub open spec fn merged(roots: Seq<int>, a: int, b: int) -> Seq<int> {
    let ra = roots[a];
    let rb = roots[b];
    if ra == rb {
        roots
    } else if class_size(roots, ra) < class_size(roots, rb) {
        relabel(roots, ra, rb)
    } else {
        relabel(roots, rb, ra)
    }
}

/// The assignment of `n` elements, each alone in its cluster.
pub open spec fn singletons(n: nat) -> Seq<int> {
    Seq::new(n, |i: int| i)
}

/// A valid assignment: every element points to a representative, which
/// represents itself.
pub open spec fn is_partition(roots: Seq<int>) -> bool {
    forall|i: int|
        0 <= i < roots.len() ==> 0 <= #[trigger] roots[i] < roots.len() && roots[roots[i]] == roots[i]
}

pub proof fn lemma_class_finite(roots: Seq<int>, r: int)
    ensures
        class(roots, r).finite(),
        class(roots, r).len() <= roots.len(),
{
    lemma_int_range(0, roots.len() as int);
    assert(class(roots, r).subset_of(set_int_range(0, roots.len() as int)));
    lemma_len_subset(class(roots, r), set_int_range(0, roots.len() as int));
}

/// The sum of the cluster sizes of the representatives below `k`.
pub open spec fn root_size_sum(roots: Seq<int>, k: int) -> nat
    decreases k,
{
    if k <= 0 {
        0
    } else {
        root_size_sum(roots, k - 1) + if roots[k - 1] == k - 1 {
            class_size(roots, k - 1)
        } else {
            0
        }
    }
}

/// The elements whose representative is below `k`.
pub open spec fn below(roots: Seq<int>, k: int) -> Set<int> {
    Set::new(|i: int| 0 <= i < roots.len() && roots[i] < k)
}

proof fn lemma_root_size_sum_counts(roots: Seq<int>, k: int)
    requires
        is_partition(roots),
        0 <= k <= roots.len(),
    ensures
        below(roots, k).finite(),
        root_size_sum(roots, k) == below(roots, k).len(),
    decreases k,
{
    lemma_int_range(0, roots.len() as int);
    assert(below(roots, k).subset_of(set_int_range(0, roots.len() as int)));
    lemma_len_subset(below(roots, k), set_int_range(0, roots.len() as int));
    if k == 0 {
        assert(below(roots, k) =~= Set::empty());
    } else {
        lemma_root_size_sum_counts(roots, k - 1);
        lemma_class_finite(roots, k - 1);
        assert(below(roots, k) =~= below(roots, k - 1).union(class(roots, k - 1)));
        assert(below(roots, k - 1).disjoint(class(roots, k - 1)));
        lemma_set_disjoint_lens(below(roots, k - 1), class(roots, k - 1));
        if roots[k - 1] != k - 1 {
            assert forall|i: int| 0 <= i < roots.len() implies roots[i] != k - 1 by {
                assert(roots[roots[i]] == roots[i]);
            }
            assert(class(roots, k - 1) =~= Set::empty());
        }
    }
}

/// Over any valid assignment of `n` elements, the sizes of the clusters,
/// each counted once at its representative, add up to `n`.
pub proof fn lemma_root_sizes_sum_to_len(roots: Seq<int>)
    requires
        is_partition(roots),
    ensures
        root_size_sum(roots, roots.len() as int) == roots.len(),
{
    lemma_root_size_sum_counts(roots, roots.len() as int);
    assert(below(roots, roots.len() as int) =~= set_int_range(0, roots.len() as int));
    lemma_int_range(0, roots.len() as int);
}

/// A disjoint-set forest over the elements `0..n`, with union by size and
/// path compression.
pub struct DisjointSet {
    parent: Vec<usize>,
    size: Vec<usize>,
    roots: Ghost<Seq<int>>,
    depth: Ghost<Seq<nat>>,
}

impl View for DisjointSet {
    type V = Seq<int>;

    /// The representative of each element.
    closed spec fn view(&self) -> Seq<int> {
        self.roots@
    }
}

impl DisjointSet {
    pub closed spec fn wf(&self) -> bool {
        let n = self.parent@.len();
        let roots = self.roots@;
        let depth = self.depth@;
        &&& self.size@.len() == n
        &&& roots.len() == n
        &&& depth.len() == n
        &&& is_partition(roots)
        &&& forall|i: int|
            0 <= i < n ==> {
                &&& #[trigger] self.parent@[i] < n
                &&& roots[self.parent@[i] as int] == roots[i]
                &&& self.parent@[i] != i ==> depth[self.parent@[i] as int] < depth[i]
                &&& self.parent@[i] == i ==> roots[i] == i
            }
        &&& forall|i: int| 0 <= i < n ==> depth[roots[i]] <= #[trigger] depth[i]
        &&& forall|r: int|
            0 <= r < n && #[trigger] roots[r] == r ==> self.size@[r] == class_size(roots, r)
    }

    /// How far `x` may still be from its representative; shrinks along
    /// each parent link.
    pub closed spec fn depth_of(&self, x: int) -> nat {
        self.depth@[x]
    }

    pub proof fn lemma_partition(&self)
        requires
            self.wf(),
        ensures
            is_partition(self@),
    {
    }

    /// Whatever unions were made, finding the representative of a
    /// representative gives it back, and the cluster sizes counted once per
    /// representative add up to the number of elements.
    pub proof fn lemma_find_idempotent_and_sizes(&self, x: int)
        requires
            self.wf(),
            0 <= x < self@.len(),
        ensures
            self@[self@[x]] == self@[x],
            0 <= self@[x] < self@.len(),
            root_size_sum(self@, self@.len() as int) == self@.len(),
    {
        lemma_root_sizes_sum_to_len(self@);
    }

    /// A forest of `n` elements, each alone in its cluster.
    pub fn new(n: usize) -> (r: DisjointSet)
        ensures
            r.wf(),
            r@ == singletons(n as nat),
    {
        let mut parent: Vec<usize> = Vec::new();
        let mut size: Vec<usize> = Vec::new();
        let mut i: usize = 0;
        while i < n
            invariant
                i <= n,
                parent@.len() == i,
                size@.len() == i,
                forall|k: int| 0 <= k < i ==> parent@[k] == k && size@[k] == 1,
            decreases n - i,
        {
            parent.push(i);
            size.push(1);
            i = i + 1;
        }
        let ghost roots = singletons(n as nat);
        let ghost depth = Seq::new(n as nat, |k: int| 0nat);
        assert forall|r: int| 0 <= r < n implies class_size(roots, r) == 1 by {
            assert(class(roots, r) =~= set![r]);
        }
        DisjointSet { parent, size, roots: Ghost(roots), depth: Ghost(depth) }
    }

    pub fn len(&self) -> (r: usize)
        requires
            self.wf(),
        ensures
            r == self@.len(),
    {
        self.parent.len()
    }

    /// The representative of `x`; shortens the path from `x` to it.
    pub fn find(&mut self, x: usize) -> (r: usize)
        requires
            old(self).wf(),
            x < old(self)@.len(),
        ensures
            final(self).wf(),
            final(self)@ == old(self)@,
            r == old(self)@[x as int],
            r < old(self)@.len(),
        decreases old(self).depth_of(x as int),
    {
        let p = self.parent[x];
        if p != x {
            let r = self.find(p);
            self.parent.set(x, r);
            r
        } else {
            x
        }
    }

    /// Joins the clusters of `x` and `y`.
    pub fn union(&mut self, x: usize, y: usize)
        requires
            old(self).wf(),
            x < old(self)@.len(),
            y < old(self)@.len(),
        ensures
            final(self).wf(),
            final(self)@ == merged(old(self)@, x as int, y as int),
    {
        let mut rx = self.find(x);
        let mut ry = self.find(y);
        if rx != ry {
            if self.size[rx] < self.size[ry] {
                let t = rx;
                rx = ry;
                ry = t;
            }
            let len = self.parent.len();
            let ghost n = self.parent@.len();
            let ghost roots = self.roots@;
            let ghost depth = self.depth@;
            let ghost new_roots = relabel(roots, ry as int, rx as int);
            let ghost new_depth = Seq::new(
                n,
                |k: int| if roots[k] == ry { depth[k] + depth[rx as int] + 1 } else { depth[k] },
            );
            proof {
                lemma_class_finite(roots, rx as int);
                lemma_class_finite(roots, ry as int);
                assert(class(roots, rx as int).disjoint(class(roots, ry as int)));
                lemma_set_disjoint_lens(class(roots, rx as int), class(roots, ry as int));
                assert(class(new_roots, rx as int) =~= class(roots, rx as int).union(
                    class(roots, ry as int),
                ));
                lemma_class_finite(new_roots, rx as int);
                assert(roots[rx as int] == rx && roots[ry as int] == ry);
                assert(self.size@[rx as int] + self.size@[ry as int] <= len);
                assert forall|r: int| 0 <= r < n && r != rx && r != ry implies class(new_roots, r)
                    =~= class(roots, r) by {}
            }
            self.parent.set(ry, rx);
            self.size.set(rx, self.size[rx] + self.size[ry]);
            self.size.set(ry, 0);
            self.roots = Ghost(new_roots);
            self.depth = Ghost(new_depth);
        }
    }

    /// The number of elements in the cluster of `x`.
    pub fn cluster_size(&mut self, x: usize) -> (r: usize)
        requires
            old(self).wf(),
            x < old(self)@.len(),
        ensures
            final(self).wf(),
            final(self)@ == old(self)@,
            r == class_size(old(self)@, old(self)@[x as int]),
    {
        let root = self.find(x);
        self.size[root]
    }
}

} // verus!
