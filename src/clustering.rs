use vstd::prelude::*;
use vstd::string::StringSliceAdditionalSpecFns;
use vstd::set_lib::*;
use crate::geometry::{Coord, sq_dist};
use crate::text::{split, lines, views, signed_value, split_bytes, split_lines, parse_i64};
use crate::selector::{Edge, SmallestK, LargestK, offer_smallest, offer_largest, insert_ascending, insert_descending, edge_lt, sorted_ascending, lemma_insert_ascending_len};
use crate::union_find::{DisjointSet, merged, singletons, class, class_size, is_partition, lemma_class_finite};

verus! {

broadcast use vstd::seq_lib::group_to_multiset_ensures;

/// Why a clustering computation produced no value.
#[derive(Debug, Clone, Copy, PartialEq, Eq, Structural)]
pub enum ClusterError {
    /// Too few points for the computation.
    InsufficientPoints,
    /// A squared distance or the result does not fit in a `u64`.
    Overflow,
}

/// Every pairwise squared distance fits in a `u64`.
pub open spec fn distances_fit(pts: Seq<Coord>) -> bool {
    forall|i: int, j: int| 0 <= i < j < pts.len() ==> #[trigger] sq_dist(pts[i], pts[j]) <= u64::MAX
}

/// The candidate edge between points `i` and `j`.
pub open spec fn edge_of(pts: Seq<Coord>, i: int, j: int) -> Edge {
    (sq_dist(pts[i], pts[j]) as u64, i as usize, j as usize)
}

/// The edges from `i` to the points `i + 1 .. j`.
pub open spec fn row(pts: Seq<Coord>, i: int, j: int) -> Seq<Edge> {
    Seq::new((j - i - 1) as nat, |t: int| edge_of(pts, i, i + 1 + t))
}

/// The edges whose first endpoint is below `i`, in the order in which pairs
/// are generated: by first endpoint, then by second.
pub open spec fn rows(pts: Seq<Coord>, i: int) -> Seq<Edge>
    decreases i,
{
    if i <= 0 {
        Seq::empty()
    } else {
        rows(pts, i - 1) + row(pts, i - 1, pts.len() as int)
    }
}

/// Every unordered pair of points, as an edge, in generation order.
pub open spec fn all_edges(pts: Seq<Coord>) -> Seq<Edge> {
    rows(pts, pts.len() as int)
}

/// The edges kept by a selector of capacity `k` fed with `edges`.
pub open spec fn select_smallest(edges: Seq<Edge>, k: nat) -> Seq<Edge> {
    edges.fold_left(Seq::<Edge>::empty(), |s: Seq<Edge>, e: Edge| offer_smallest(s, k, e))
}

/// The cluster assignment after joining the endpoints of each edge in turn.
pub open spec fn link_all(roots: Seq<int>, edges: Seq<Edge>) -> Seq<int> {
    edges.fold_left(roots, |r: Seq<int>, e: Edge| merged(r, e.1 as int, e.2 as int))
}

/// Some element before `i` belongs to cluster `r`.
pub open spec fn seen_before(roots: Seq<int>, r: int, i: int) -> bool {
    exists|j: int| 0 <= j < i && roots[j] == r
}

/// The `m` largest cluster sizes, offered once per cluster, when the cluster
/// is first met in index order among the elements below `i`.
pub open spec fn ranked_sizes(roots: Seq<int>, m: nat, i: int) -> Seq<u64>
    decreases i,
{
    if i <= 0 {
        Seq::empty()
    } else {
        let prev = ranked_sizes(roots, m, i - 1);
        let r = roots[i - 1];
        if seen_before(roots, r, i - 1) {
            prev
        } else {
            offer_largest(prev, m, class_size(roots, r) as u64)
        }
    }
}

pub open spec fn product(s: Seq<u64>) -> int
    decreases s.len(),
{
    if s.len() == 0 {
        1
    } else {
        product(s.drop_last()) * s.last()
    }
}

/// The clusters formed by joining the `k` closest pairs of `pts`.
pub open spec fn clusters_of(pts: Seq<Coord>, k: nat) -> Seq<int> {
    link_all(singletons(pts.len()), select_smallest(all_edges(pts), k))
}

/// The product of the `m` largest cluster sizes after joining the `k`
/// closest pairs.
pub open spec fn cluster_product(pts: Seq<Coord>, m: nat, k: nat) -> int {
    product(ranked_sizes(clusters_of(pts, k), m, pts.len() as int))
}

proof fn lemma_rows_len_shape(pts: Seq<Coord>, i: int)
    requires
        0 <= i <= pts.len() <= usize::MAX,
    ensures
        forall|t: int|
            0 <= t < rows(pts, i).len() ==> {
                &&& (#[trigger] rows(pts, i)[t]).1 < rows(pts, i)[t].2
                &&& rows(pts, i)[t].2 < pts.len()
                &&& rows(pts, i)[t] == edge_of(pts, rows(pts, i)[t].1 as int, rows(pts, i)[t].2 as int)
            },
        i >= 1 ==> rows(pts, i).len() >= pts.len() - 1,
    decreases i,
{
    if i > 0 {
        lemma_rows_len_shape(pts, i - 1);
        let a = rows(pts, i - 1);
        let b = row(pts, i - 1, pts.len() as int);
        assert forall|t: int| 0 <= t < rows(pts, i).len() implies {
            &&& (#[trigger] rows(pts, i)[t]).1 < rows(pts, i)[t].2
            &&& rows(pts, i)[t].2 < pts.len()
            &&& rows(pts, i)[t] == edge_of(pts, rows(pts, i)[t].1 as int, rows(pts, i)[t].2 as int)
        } by {
            if t < a.len() {
                assert(rows(pts, i)[t] == a[t]);
            } else {
                assert(rows(pts, i)[t] == b[t - a.len()]);
                assert(b[t - a.len()] == edge_of(pts, i - 1, i + (t - a.len())));
            }
        }
    }
}

/// What `best_connections` returns.
pub open spec fn cluster_result(pts: Seq<Coord>, m: nat, k: nat) -> Result<u64, ClusterError> {
    if pts.len() == 0 {
        Err(ClusterError::InsufficientPoints)
    } else if !distances_fit(pts) || cluster_product(pts, m, k) > u64::MAX {
        Err(ClusterError::Overflow)
    } else {
        Ok(cluster_product(pts, m, k) as u64)
    }
}

/// Multiplies the values of `v`; `None` when the product exceeds `u64`.
pub fn product_of(v: &Vec<u64>) -> (r: Option<u64>)
    ensures
        product(v@) <= u64::MAX ==> r == Some(product(v@) as u64),
        product(v@) > u64::MAX ==> r is None,
{
    let n = v.len();
    let mut i: usize = 0;
    while i < n
        invariant
            i <= n == v@.len(),
            forall|t: int| 0 <= t < i ==> v@[t] != 0,
        decreases n - i,
    {
        if v[i] == 0 {
            proof { lemma_product_zero(v@, i as int); }
            return Some(0);
        }
        i = i + 1;
    }
    let mut acc: u64 = 1;
    let mut i: usize = 0;
    while i < n
        invariant
            i <= n == v@.len(),
            forall|t: int| 0 <= t < n ==> v@[t] != 0,
            acc == product(v@.take(i as int)),
        decreases n - i,
    {
        proof {
            assert(v@.take(i + 1).drop_last() =~= v@.take(i as int));
        }
        match acc.checked_mul(v[i]) {
            Some(p) => {
                acc = p;
            },
            None => {
                proof { lemma_product_grows(v@, i + 1); }
                return None;
            },
        }
        i = i + 1;
    }
    proof { assert(v@.take(n as int) =~= v@); }
    Some(acc)
}

proof fn lemma_product_zero(s: Seq<u64>, i: int)
    requires
        0 <= i < s.len(),
        s[i] == 0,
    ensures
        product(s) == 0,
    decreases s.len(),
{
    if i < s.len() - 1 {
        lemma_product_zero(s.drop_last(), i);
    }
}

/// With no zero factor, the product of a prefix bounds the product.
proof fn lemma_product_grows(s: Seq<u64>, k: int)
    requires
        0 <= k <= s.len(),
        forall|t: int| 0 <= t < s.len() ==> s[t] != 0,
    ensures
        product(s.take(k)) <= product(s),
        product(s) >= 1,
    decreases s.len(),
{
    if s.len() > 0 {
        lemma_product_grows(s.drop_last(), if k == s.len() { k - 1 } else { k });
        let p = product(s.drop_last());
        assert(p * s.last() >= p) by (nonlinear_arith)
            requires
                p >= 1,
                s.last() >= 1,
        ;
        if k == s.len() {
            assert(s.take(k) =~= s);
        } else {
            assert(s.drop_last().take(k) =~= s.take(k));
        }
    } else {
        assert(s.take(k) =~= s);
    }
}

/// Joins the `num_connections` closest pairs of `coords` and returns the
/// product of the sizes of the `num_multiply_sets` largest clusters.
pub fn best_connections(coords: Vec<Coord>, num_multiply_sets: usize, num_connections: usize) -> (r: Result<u64, ClusterError>)
    ensures
        r == cluster_result(coords@, num_multiply_sets as nat, num_connections as nat),
{
    let n = coords.len();
    if n == 0 {
        return Err(ClusterError::InsufficientPoints);
    }
    let ghost pts = coords@;
    let ghost k = num_connections as nat;
    let mut min_distances = SmallestK::with_capacity(num_connections);
    let mut i: usize = 0;
    while i < n
        invariant
            n == pts.len(),
            coords@ == pts,
            i <= n,
            min_distances.wf(),
            min_distances.capacity() == k,
            min_distances@ == select_smallest(rows(pts, i as int), k),
            forall|a: int, b: int| 0 <= a < i && a < b < n ==> #[trigger] sq_dist(pts[a], pts[b]) <= u64::MAX,
        decreases n - i,
    {
        let mut j: usize = i + 1;
        proof {
            assert(rows(pts, i as int) + row(pts, i as int, j as int) =~= rows(pts, i as int));
        }
        while j < n
            invariant
                n == pts.len(),
                coords@ == pts,
                i < n,
                i < j <= n,
                min_distances.wf(),
                min_distances.capacity() == k,
                min_distances@ == select_smallest(rows(pts, i as int) + row(pts, i as int, j as int), k),
                forall|a: int, b: int| 0 <= a < i && a < b < n ==> #[trigger] sq_dist(pts[a], pts[b]) <= u64::MAX,
                forall|b: int| i < b < j ==> #[trigger] sq_dist(pts[i as int], pts[b]) <= u64::MAX,
            decreases n - j,
        {
            let d = coords[i].dist(&coords[j]);
            match d {
                None => {
                    return Err(ClusterError::Overflow);
                },
                Some(dist) => {
                    let ghost before = rows(pts, i as int) + row(pts, i as int, j as int);
                    let ghost after = rows(pts, i as int) + row(pts, i as int, j + 1);
                    proof {
                        assert(after =~= before.push(edge_of(pts, i as int, j as int)));
                        assert(after.drop_last() =~= before);
                    }
                    min_distances.offer((dist, i, j));
                    j = j + 1;
                },
            }
        }
        proof {
            assert(rows(pts, i + 1) == rows(pts, i as int) + row(pts, i as int, n as int));
        }
        i = i + 1;
    }
    let ghost selected = select_smallest(rows(pts, n as int), k);
    let min_dists = min_distances.into_sorted_vec();
    proof {
        lemma_rows_len_shape(pts, n as int);
        lemma_select_in_range(rows(pts, n as int), k, n as int);
    }
    let mut ds = DisjointSet::new(n);
    let mut t: usize = 0;
    while t < min_dists.len()
        invariant
            min_dists@ == selected,
            endpoints_below(selected, n as int),
            t <= selected.len(),
            ds.wf(),
            ds@ == link_all(singletons(n as nat), selected.take(t as int)),
            ds@.len() == n,
        decreases selected.len() - t,
    {
        let (_, a, b) = min_dists[t];
        proof {
            assert(selected.take(t + 1).drop_last() =~= selected.take(t as int));
        }
        ds.union(a, b);
        t = t + 1;
    }
    proof { assert(selected.take(t as int) =~= selected); }
    let ghost roots = ds@;
    let mut seen: Vec<bool> = vec![false; n];
    let mut max_sizes = LargestK::with_capacity(num_multiply_sets);
    proof { ds.lemma_partition(); }
    let mut i: usize = 0;
    while i < n
        invariant
            ds.wf(),
            ds@ == roots,
            is_partition(roots),
            roots.len() == n,
            seen@.len() == n,
            i <= n,
            forall|r: int| 0 <= r < n ==> #[trigger] seen@[r] == seen_before(roots, r, i as int),
            max_sizes.wf(),
            max_sizes.capacity() == num_multiply_sets,
            max_sizes@ == ranked_sizes(roots, num_multiply_sets as nat, i as int),
        decreases n - i,
    {
        let root = ds.find(i);
        assert(0 <= roots[i as int] < n);
        if !seen[root] {
            let s = ds.cluster_size(i);
            proof { lemma_class_finite(roots, root as int); }
            max_sizes.offer(s as u64);
            seen.set(root, true);
        }
        proof {
            assert forall|r: int| 0 <= r < n implies #[trigger] seen@[r] == seen_before(roots, r, i + 1) by {
                if seen_before(roots, r, i + 1) && !seen_before(roots, r, i as int) {
                    assert(roots[i as int] == r);
                }
                if r == root {
                    assert(roots[i as int] == r);
                }
            }
        }
        i = i + 1;
    }
    let sizes = max_sizes.into_vec();
    match product_of(&sizes) {
        Some(p) => Ok(p),
        None => Err(ClusterError::Overflow),
    }
}

/// One step of the sweep: an edge whose endpoints lie in different clusters
/// joins them and becomes the last merging edge.
pub open spec fn sweep_step(st: (Seq<int>, Option<Edge>), e: Edge) -> (Seq<int>, Option<Edge>) {
    if st.0[e.1 as int] != st.0[e.2 as int] {
        (merged(st.0, e.1 as int, e.2 as int), Some(e))
    } else {
        st
    }
}

/// The clusters and the last merging edge after sweeping `edges` over `n`
/// singletons.
pub open spec fn sweep(edges: Seq<Edge>, n: nat) -> (Seq<int>, Option<Edge>) {
    edges.fold_left((singletons(n), None::<Edge>), |st: (Seq<int>, Option<Edge>), e: Edge| sweep_step(st, e))
}

/// `s` holds the edges of `all` in ascending order.
pub open spec fn is_sorted_order(s: Seq<Edge>, all: Seq<Edge>) -> bool {
    sorted_ascending(s) && s.to_multiset() == all.to_multiset()
}

/// The edges of `pts` in ascending order.
pub open spec fn sorted_edges(pts: Seq<Coord>) -> Seq<Edge> {
    choose|s: Seq<Edge>| is_sorted_order(s, all_edges(pts))
}

/// What `best_connections_2` returns.
pub open spec fn percolation_result(pts: Seq<Coord>) -> Result<u64, ClusterError> {
    if pts.len() < 2 {
        Err(ClusterError::InsufficientPoints)
    } else if !distances_fit(pts) {
        Err(ClusterError::Overflow)
    } else {
        let score = edge_score(pts, sweep(sorted_edges(pts), pts.len()).1.unwrap());
        if 0 <= score <= u64::MAX {
            Ok(score as u64)
        } else {
            Err(ClusterError::Overflow)
        }
    }
}

/// Two ascending orderings of the same edges are the same sequence.
pub proof fn lemma_sorted_order_unique(s1: Seq<Edge>, s2: Seq<Edge>)
    requires
        sorted_ascending(s1),
        sorted_ascending(s2),
        s1.to_multiset() == s2.to_multiset(),
    ensures
        s1 == s2,
    decreases s1.len(),
{
    broadcast use vstd::multiset::group_multiset_axioms;
    vstd::seq_lib::to_multiset_len(s1);
    vstd::seq_lib::to_multiset_len(s2);
    if s1.len() > 0 {
        let a = s1.last();
        let b = s2.last();
        assert(s1.to_multiset().count(b) > 0);
        assert(s2.to_multiset().count(a) > 0);
        let i = choose|i: int| 0 <= i < s1.len() && s1[i] == b;
        let j = choose|j: int| 0 <= j < s2.len() && s2[j] == a;
        if i < s1.len() - 1 {
            assert(!edge_lt(s1[s1.len() - 1], s1[i]));
        }
        if j < s2.len() - 1 {
            assert(!edge_lt(s2[s2.len() - 1], s2[j]));
        }
        assert(a == b);
        let d1 = s1.drop_last();
        let d2 = s2.drop_last();
        assert(d1.push(a) =~= s1);
        assert(d2.push(a) =~= s2);
        assert(d1.to_multiset() =~= s1.to_multiset().remove(a));
        assert(d2.to_multiset() =~= s2.to_multiset().remove(a));
        lemma_sorted_order_unique(d1, d2);
        assert(s1 =~= s2);
    } else {
        assert(s1 =~= s2);
    }
}

/// The score of an edge: the product of its endpoints' first coordinates.
pub open spec fn edge_score(pts: Seq<Coord>, e: Edge) -> int {
    pts[e.1 as int].x * pts[e.2 as int].x
}

/// Relies on `slice::sort_unstable`: afterwards the edges are in ascending
/// lexicographic order, as std orders tuples, and are a permutation of the
/// edges before.
#[verifier::external_body]
fn sort_edges(v: &mut Vec<Edge>)
    ensures
        sorted_ascending(final(v)@),
        final(v)@.to_multiset() == old(v)@.to_multiset(),
{
    v.sort_unstable();
}

/// Joins all pairs of `coords` in ascending order of distance and returns
/// the score of the last pair that joined two distinct clusters.
pub fn best_connections_2(coords: Vec<Coord>) -> (r: Result<u64, ClusterError>)
    ensures
        r == percolation_result(coords@),
        coords@.len() >= 2 && distances_fit(coords@) ==> sweep(sorted_edges(coords@), coords@.len()).1 is Some,
{
    let n = coords.len();
    if n < 2 {
        return Err(ClusterError::InsufficientPoints);
    }
    let ghost pts = coords@;
    let mut distances: Vec<Edge> = Vec::new();
    let mut i: usize = 0;
    while i < n
        invariant
            n == pts.len(),
            coords@ == pts,
            i <= n,
            distances@ == rows(pts, i as int),
            forall|a: int, b: int| 0 <= a < i && a < b < n ==> #[trigger] sq_dist(pts[a], pts[b]) <= u64::MAX,
        decreases n - i,
    {
        let mut j: usize = i + 1;
        proof {
            assert(rows(pts, i as int) + row(pts, i as int, j as int) =~= rows(pts, i as int));
        }
        while j < n
            invariant
                n == pts.len(),
                coords@ == pts,
                i < n,
                i < j <= n,
                distances@ == rows(pts, i as int) + row(pts, i as int, j as int),
                forall|a: int, b: int| 0 <= a < i && a < b < n ==> #[trigger] sq_dist(pts[a], pts[b]) <= u64::MAX,
                forall|b: int| i < b < j ==> #[trigger] sq_dist(pts[i as int], pts[b]) <= u64::MAX,
            decreases n - j,
        {
            match coords[i].dist(&coords[j]) {
                None => {
                    return Err(ClusterError::Overflow);
                },
                Some(dist) => {
                    proof {
                        assert(rows(pts, i as int) + row(pts, i as int, j + 1) =~= distances@.push(
                            edge_of(pts, i as int, j as int),
                        ));
                    }
                    distances.push((dist, i, j));
                    j = j + 1;
                },
            }
        }
        proof {
            assert(rows(pts, i + 1) == rows(pts, i as int) + row(pts, i as int, n as int));
        }
        i = i + 1;
    }
    let ghost all = distances@;
    sort_edges(&mut distances);
    let ghost sorted = distances@;
    proof {
        lemma_rows_len_shape(pts, n as int);
        assert forall|u: int| 0 <= u < sorted.len() implies (#[trigger] sorted[u]).1 < sorted[u].2 && sorted[u].2 < n by {
            assert(sorted.to_multiset().count(sorted[u]) > 0);
            assert(all.contains(sorted[u]));
        }
    }
    let mut ds = DisjointSet::new(n);
    let mut last: Option<Edge> = None;
    let mut t: usize = 0;
    while t < distances.len()
        invariant
            distances@ == sorted,
            forall|u: int| 0 <= u < sorted.len() ==> (#[trigger] sorted[u]).1 < sorted[u].2 && sorted[u].2 < n,
            t <= sorted.len(),
            ds.wf(),
            ds@.len() == n,
            (ds@, last) == sweep(sorted.take(t as int), n as nat),
            t > 0 ==> last is Some,
            last is Some ==> last.unwrap().1 < n && last.unwrap().2 < n,
        decreases sorted.len() - t,
    {
        let e = distances[t];
        let (_, a, b) = e;
        proof {
            assert(sorted.take(t + 1).drop_last() =~= sorted.take(t as int));
            if t == 0 {
                assert(sorted.take(0) =~= Seq::<Edge>::empty());
            }
        }
        let ghost roots = ds@;
        proof {
            ds.lemma_partition();
            assert(sorted.take(t + 1).last() == e);
        }
        let pa = ds.find(a);
        let pb = ds.find(b);
        proof {
            assert(merged(roots, pa as int, pb as int) == merged(roots, a as int, b as int));
        }
        if pa != pb {
            last = Some(e);
            ds.union(pa, pb);
            proof {
                ds.lemma_partition();
            }
        }
        t = t + 1;
    }
    proof {
        assert(sorted.take(t as int) =~= sorted);
        assert(is_sorted_order(sorted, all_edges(pts)));
        lemma_sorted_order_unique(sorted, sorted_edges(pts));
        assert(sorted.to_multiset().len() == all.to_multiset().len());
    }
    match last {
        Some((_, a, b)) => {
            let xa = coords[a].x as i128;
            let xb = coords[b].x as i128;
            match xa.checked_mul(xb) {
                Some(score) => {
                    if score < 0 || score > u64::MAX as i128 {
                        Err(ClusterError::Overflow)
                    } else {
                        Ok(score as u64)
                    }
                },
                None => Err(ClusterError::Overflow),
            }
        },
        None => Err(ClusterError::InsufficientPoints),
    }
}

/// The point that a line `x,y,z` spells.
pub open spec fn coord_of(line: Seq<u8>) -> Option<Coord> {
    let p = split(line, 44u8);
    if p.len() == 3 && signed_value(p[0]) is Some && signed_value(p[1]) is Some && signed_value(p[2]) is Some {
        Some(Coord { x: signed_value(p[0]).unwrap(), y: signed_value(p[1]).unwrap(), z: signed_value(p[2]).unwrap() })
    } else {
        None
    }
}

/// The points of a text with one point per line, or `None` when some line
/// is not a point.
pub open spec fn points_of(s: Seq<u8>) -> Option<Seq<Coord>> {
    let ls = lines(s);
    if forall|i: int| 0 <= i < ls.len() ==> #[trigger] coord_of(ls[i]) is Some {
        Some(Seq::new(ls.len(), |i: int| coord_of(ls[i]).unwrap()))
    } else {
        None
    }
}

pub open spec fn ok_of(r: Result<u64, ClusterError>) -> Option<u64> {
    match r {
        Ok(v) => Some(v),
        Err(_) => None,
    }
}

/// Reads one point per line.
pub fn parse_coords(input: &str) -> (r: Option<Vec<Coord>>)
    ensures
        points_of(input.spec_bytes()) is None ==> r is None,
        points_of(input.spec_bytes()) is Some ==> r is Some && r.unwrap()@ == points_of(input.spec_bytes()).unwrap(),
{
    let ls = split_lines(input.as_bytes());
    let ghost lv = lines(input.spec_bytes());
    let mut coords: Vec<Coord> = Vec::new();
    let mut i: usize = 0;
    assert(views(ls@).len() == ls@.len());
    while i < ls.len()
        invariant
            views(ls@) == lv,
            lv == lines(input.spec_bytes()),
            ls@.len() == lv.len(),
            i <= lv.len(),
            coords@.len() == i,
            forall|t: int| 0 <= t < i ==> #[trigger] coord_of(lv[t]) == Some(coords@[t]),
        decreases lv.len() - i,
    {
        assert(ls@[i as int]@ == lv[i as int]);
        let parts = split_bytes(ls[i].as_slice(), 44u8);
        let ghost pv = split(lv[i as int], 44u8);
        assert(views(parts@).len() == parts@.len());
        if parts.len() != 3 {
            assert(coord_of(lv[i as int]) is None);
            assert(points_of(input.spec_bytes()) is None);
            return None;
        }
        assert(parts@[0]@ == pv[0] && parts@[1]@ == pv[1] && parts@[2]@ == pv[2]);
        let x = parse_i64(parts[0].as_slice());
        let y = parse_i64(parts[1].as_slice());
        let z = parse_i64(parts[2].as_slice());
        match (x, y, z) {
            (Some(x), Some(y), Some(z)) => {
                coords.push(Coord::new(x, y, z));
            },
            _ => {
                assert(coord_of(lv[i as int]) is None);
                assert(points_of(input.spec_bytes()) is None);
                return None;
            },
        }
        i = i + 1;
    }
    proof {
        assert(coords@ =~= points_of(input.spec_bytes()).unwrap());
    }
    Some(coords)
}

/// The product of the sizes of the three largest clusters after joining the
/// thousand closest pairs of the points in `input`.
pub fn part_one(input: &str) -> (r: Option<u64>)
    ensures
        points_of(input.spec_bytes()) is None ==> r is None,
        points_of(input.spec_bytes()) is Some ==> r == ok_of(cluster_result(points_of(input.spec_bytes()).unwrap(), 3, 1000)),
{
    match parse_coords(input) {
        Some(coords) => match best_connections(coords, 3, 1000) {
            Ok(v) => Some(v),
            Err(_) => None,
        },
        None => None,
    }
}

/// The score of the pair that completes the connection of all points in
/// `input`.
pub fn part_two(input: &str) -> (r: Option<u64>)
    ensures
        points_of(input.spec_bytes()) is None ==> r is None,
        points_of(input.spec_bytes()) is Some ==> r == ok_of(percolation_result(points_of(input.spec_bytes()).unwrap())),
{
    match parse_coords(input) {
        Some(coords) => match best_connections_2(coords) {
            Ok(v) => Some(v),
            Err(_) => None,
        },
        None => None,
    }
}

/// Both endpoints of every edge of `s` are below `n`.
pub open spec fn endpoints_below(s: Seq<Edge>, n: int) -> bool {
    forall|u: int| 0 <= u < s.len() ==> (#[trigger] s[u]).1 < n && s[u].2 < n
}

proof fn lemma_insert_endpoints(s: Seq<Edge>, e: Edge, n: int)
    requires
        endpoints_below(s, n),
        e.1 < n && e.2 < n,
    ensures
        endpoints_below(insert_ascending(s, e), n),
    decreases s.len(),
{
    if s.len() > 0 && edge_lt(e, s.last()) {
        lemma_insert_endpoints(s.drop_last(), e, n);
        let r = insert_ascending(s.drop_last(), e).push(s.last());
        assert forall|u: int| 0 <= u < r.len() implies (#[trigger] r[u]).1 < n && r[u].2 < n by {
            if u < r.len() - 1 {
                assert(r[u] == insert_ascending(s.drop_last(), e)[u]);
            }
        }
    } else if s.len() > 0 {
        assert forall|u: int| 0 <= u < s.push(e).len() implies (#[trigger] s.push(e)[u]).1 < n && s.push(e)[u].2 < n by {
            if u < s.len() {
                assert(s.push(e)[u] == s[u]);
            }
        }
    }
}

/// A selector's edges all come from the stream it was fed.
proof fn lemma_select_in_range(edges: Seq<Edge>, k: nat, n: int)
    requires
        endpoints_below(edges, n),
    ensures
        endpoints_below(select_smallest(edges, k), n),
    decreases edges.len(),
{
    if edges.len() > 0 {
        let prev = edges.drop_last();
        assert(endpoints_below(prev, n)) by {
            assert forall|u: int| 0 <= u < prev.len() implies (#[trigger] prev[u]).1 < n && prev[u].2 < n by {
                assert(prev[u] == edges[u]);
            }
        }
        lemma_select_in_range(prev, k, n);
        let s = select_smallest(prev, k);
        let e = edges.last();
        assert(e == edges[edges.len() - 1]);
        if s.len() < k {
            lemma_insert_endpoints(s, e, n);
        } else if s.len() > 0 && e.0 < s.last().0 {
            assert(endpoints_below(s.drop_last(), n)) by {
                assert forall|u: int| 0 <= u < s.drop_last().len() implies (#[trigger] s.drop_last()[u]).1 < n && s.drop_last()[u].2 < n by {
                    assert(s.drop_last()[u] == s[u]);
                }
            }
            lemma_insert_endpoints(s.drop_last(), e, n);
        }
    }
}

/// The size of every cluster, once each, in the order in which clusters are
/// first met among the elements below `i`.
pub open spec fn all_sizes(roots: Seq<int>, i: int) -> Seq<u64>
    decreases i,
{
    if i <= 0 {
        Seq::empty()
    } else if seen_before(roots, roots[i - 1], i - 1) {
        all_sizes(roots, i - 1)
    } else {
        all_sizes(roots, i - 1).push(class_size(roots, roots[i - 1]) as u64)
    }
}

proof fn lemma_product_insert_descending(s: Seq<u64>, v: u64)
    ensures
        product(insert_descending(s, v)) == product(s) * v,
        insert_descending(s, v).len() == s.len() + 1,
    decreases s.len(),
{
    if s.len() == 0 {
        assert(seq![v].drop_last() =~= Seq::<u64>::empty());
        assert(product(seq![v]) == product(Seq::<u64>::empty()) * v);
    } else if v <= s.last() {
        assert(s.push(v).drop_last() =~= s);
        assert(product(s.push(v)) == product(s) * v);
    } else {
        let d = s.drop_last();
        lemma_product_insert_descending(d, v);
        let t = insert_descending(d, v);
        assert(t.push(s.last()).drop_last() =~= t);
        let a = product(d);
        let l = s.last() as int;
        assert((a * v) * l == (a * l) * v) by (nonlinear_arith);
        assert(product(t.push(s.last())) == product(t) * l);
        assert(product(s) == a * l);
    }
}

proof fn lemma_all_sizes_grow(roots: Seq<int>, i: int, j: int)
    requires
        i <= j,
    ensures
        all_sizes(roots, i).len() <= all_sizes(roots, j).len(),
    decreases j - i,
{
    if i < j {
        lemma_all_sizes_grow(roots, i, j - 1);
    }
}

proof fn lemma_ranked_all(roots: Seq<int>, m: nat, i: int)
    requires
        m >= all_sizes(roots, i).len(),
    ensures
        product(ranked_sizes(roots, m, i)) == product(all_sizes(roots, i)),
        ranked_sizes(roots, m, i).len() == all_sizes(roots, i).len(),
    decreases i,
{
    if i > 0 {
        lemma_all_sizes_grow(roots, i - 1, i);
        lemma_ranked_all(roots, m, i - 1);
        if !seen_before(roots, roots[i - 1], i - 1) {
            let prev = ranked_sizes(roots, m, i - 1);
            let v = class_size(roots, roots[i - 1]) as u64;
            lemma_product_insert_descending(prev, v);
            assert(all_sizes(roots, i).drop_last() =~= all_sizes(roots, i - 1));
        }
    }
}

/// When the rank count is at least the number of clusters formed, the
/// product takes the size of every cluster exactly once.
pub proof fn lemma_rank_count_covers_all(pts: Seq<Coord>, m: nat, k: nat)
    requires
        m >= all_sizes(clusters_of(pts, k), pts.len() as int).len(),
    ensures
        cluster_product(pts, m, k) == product(all_sizes(clusters_of(pts, k), pts.len() as int)),
{
    lemma_ranked_all(clusters_of(pts, k), m, pts.len() as int);
}

proof fn lemma_select_nothing(edges: Seq<Edge>)
    ensures
        select_smallest(edges, 0) == Seq::<Edge>::empty(),
    decreases edges.len(),
{
    if edges.len() > 0 {
        lemma_select_nothing(edges.drop_last());
    }
}

pub open spec fn all_ones(s: Seq<u64>) -> bool {
    forall|t: int| 0 <= t < s.len() ==> #[trigger] s[t] == 1
}

proof fn lemma_product_ones(s: Seq<u64>)
    requires
        all_ones(s),
    ensures
        product(s) == 1,
    decreases s.len(),
{
    if s.len() > 0 {
        let d = s.drop_last();
        assert(all_ones(d)) by {
            assert forall|t: int| 0 <= t < d.len() implies #[trigger] d[t] == 1 by {
                assert(d[t] == s[t]);
            }
        }
        lemma_product_ones(d);
        assert(s[s.len() - 1] == 1);
    }
}

proof fn lemma_ranked_singletons(n: nat, m: nat, i: int)
    requires
        i <= n,
    ensures
        all_ones(ranked_sizes(singletons(n), m, i)),
    decreases i,
{
    if i > 0 {
        lemma_ranked_singletons(n, m, i - 1);
        let roots = singletons(n);
        let prev = ranked_sizes(roots, m, i - 1);
        let r = roots[i - 1];
        assert(class(roots, r) =~= set![r]);
        assert(class_size(roots, r) == 1);
        if prev.len() < m && prev.len() > 0 {
            assert(insert_descending(prev, 1) == prev.push(1));
        }
        if prev.len() == 0 && m > 0 {
            assert(insert_descending(prev, 1) == seq![1u64]);
        }
    }
}

/// With no connection allowed every point stays alone, and the product of
/// cluster sizes is one, whatever the rank count.
pub proof fn lemma_zero_budget(pts: Seq<Coord>, m: nat)
    ensures
        clusters_of(pts, 0) == singletons(pts.len()),
        cluster_product(pts, m, 0) == 1,
{
    lemma_select_nothing(all_edges(pts));
    lemma_ranked_singletons(pts.len(), m, pts.len() as int);
    lemma_product_ones(ranked_sizes(singletons(pts.len()), m, pts.len() as int));
}

proof fn lemma_insert_ascending_keeps(s: Seq<Edge>, e: Edge)
    ensures
        insert_ascending(s, e).contains(e),
        forall|x: Edge| s.contains(x) ==> #[trigger] insert_ascending(s, e).contains(x),
        insert_ascending(s, e).len() == s.len() + 1,
    decreases s.len(),
{
    lemma_insert_ascending_len(s, e);
    if s.len() == 0 {
        assert(seq![e][0] == e);
    } else if !edge_lt(e, s.last()) {
        assert(s.push(e)[s.len() as int] == e);
        assert forall|x: Edge| s.contains(x) implies #[trigger] s.push(e).contains(x) by {
            let u = choose|u: int| 0 <= u < s.len() && s[u] == x;
            assert(s.push(e)[u] == x);
        }
    } else {
        let d = s.drop_last();
        lemma_insert_ascending_keeps(d, e);
        let t = insert_ascending(d, e);
        let r = t.push(s.last());
        let w = choose|w: int| 0 <= w < t.len() && t[w] == e;
        assert(r[w] == e);
        assert forall|x: Edge| s.contains(x) implies #[trigger] r.contains(x) by {
            let u = choose|u: int| 0 <= u < s.len() && s[u] == x;
            if u == s.len() - 1 {
                assert(r[t.len() as int] == x);
            } else {
                assert(d[u] == x);
                assert(d.contains(x));
                assert(t.contains(x));
                let w2 = choose|w2: int| 0 <= w2 < t.len() && t[w2] == x;
                assert(r[w2] == x);
            }
        }
    }
}

/// A selector whose capacity is at least the stream's length keeps every
/// edge.
proof fn lemma_select_keeps_all(edges: Seq<Edge>, k: nat)
    requires
        k >= edges.len(),
    ensures
        select_smallest(edges, k).len() == edges.len(),
        forall|u: int| 0 <= u < edges.len() ==> select_smallest(edges, k).contains(#[trigger] edges[u]),
    decreases edges.len(),
{
    if edges.len() > 0 {
        let d = edges.drop_last();
        lemma_select_keeps_all(d, k);
        let prev = select_smallest(d, k);
        lemma_insert_ascending_keeps(prev, edges.last());
        assert forall|u: int| 0 <= u < edges.len() implies select_smallest(edges, k).contains(#[trigger] edges[u]) by {
            if u < edges.len() - 1 {
                assert(d[u] == edges[u]);
                assert(prev.contains(d[u]));
            }
        }
    }
}

proof fn lemma_link_all_len(roots: Seq<int>, edges: Seq<Edge>)
    ensures
        link_all(roots, edges).len() == roots.len(),
    decreases edges.len(),
{
    if edges.len() > 0 {
        lemma_link_all_len(roots, edges.drop_last());
    }
}

/// After the endpoints of every edge are joined, the two endpoints of each
/// share a cluster.
proof fn lemma_link_all_joins(roots: Seq<int>, edges: Seq<Edge>)
    requires
        endpoints_below(edges, roots.len() as int),
    ensures
        forall|u: int| 0 <= u < edges.len() ==> link_all(roots, edges)[(#[trigger] edges[u]).1 as int]
            == link_all(roots, edges)[edges[u].2 as int],
    decreases edges.len(),
{
    if edges.len() > 0 {
        let d = edges.drop_last();
        assert(endpoints_below(d, roots.len() as int)) by {
            assert forall|u: int| 0 <= u < d.len() implies (#[trigger] d[u]).1 < roots.len() && d[u].2 < roots.len() by {
                assert(d[u] == edges[u]);
            }
        }
        lemma_link_all_joins(roots, d);
        lemma_link_all_len(roots, d);
        let prev = link_all(roots, d);
        let e = edges.last();
        assert(e == edges[edges.len() - 1]);
        let next = merged(prev, e.1 as int, e.2 as int);
        assert forall|u: int| 0 <= u < edges.len() implies next[(#[trigger] edges[u]).1 as int] == next[edges[u].2 as int] by {
            if u < edges.len() - 1 {
                assert(d[u] == edges[u]);
                assert(prev[d[u].1 as int] == prev[d[u].2 as int]);
            }
        }
    }
}

proof fn lemma_first_row(pts: Seq<Coord>, i: int)
    requires
        1 <= i <= pts.len() <= usize::MAX,
    ensures
        forall|t: int| 0 <= t < pts.len() - 1 ==> #[trigger] rows(pts, i)[t] == edge_of(pts, 0, t + 1),
        rows(pts, i).len() >= pts.len() - 1,
    decreases i,
{
    lemma_rows_len_shape(pts, i);
    if i > 1 {
        lemma_first_row(pts, i - 1);
        assert forall|t: int| 0 <= t < pts.len() - 1 implies #[trigger] rows(pts, i)[t] == edge_of(pts, 0, t + 1) by {
            assert(rows(pts, i)[t] == rows(pts, i - 1)[t]);
        }
    } else {
        assert(rows(pts, 0) =~= Seq::<Edge>::empty());
        assert forall|t: int| 0 <= t < pts.len() - 1 implies #[trigger] rows(pts, i)[t] == edge_of(pts, 0, t + 1) by {
            assert(rows(pts, 1)[t] == row(pts, 0, pts.len() as int)[t]);
        }
    }
}

/// Joins along a sequence that holds an edge from point 0 to every other
/// point leave a single cluster.
proof fn lemma_star_joins_all(pts: Seq<Coord>, edges: Seq<Edge>)
    requires
        1 <= pts.len() <= usize::MAX,
        endpoints_below(edges, pts.len() as int),
        forall|t: int| 1 <= t < pts.len() ==> edges.contains(#[trigger] edge_of(pts, 0, t)),
    ensures
        link_all(singletons(pts.len()), edges).len() == pts.len(),
        forall|t: int| 0 <= t < pts.len() ==> #[trigger] link_all(singletons(pts.len()), edges)[t]
            == link_all(singletons(pts.len()), edges)[0],
{
    let roots = singletons(pts.len());
    lemma_link_all_len(roots, edges);
    lemma_link_all_joins(roots, edges);
    let l = link_all(roots, edges);
    assert forall|t: int| 0 <= t < pts.len() implies #[trigger] l[t] == l[0] by {
        if t > 0 {
            assert(edges.contains(edge_of(pts, 0, t)));
            let u = choose|u: int| 0 <= u < edges.len() && edges[u] == edge_of(pts, 0, t);
            assert(l[edges[u].1 as int] == l[edges[u].2 as int]);
        }
    }
}

proof fn lemma_ranked_one_cluster(roots: Seq<int>, m: nat, i: int)
    requires
        m >= 1,
        1 <= i <= roots.len(),
        forall|t: int| 0 <= t < roots.len() ==> #[trigger] roots[t] == roots[0],
    ensures
        ranked_sizes(roots, m, i) == seq![class_size(roots, roots[0]) as u64],
    decreases i,
{
    if i > 1 {
        lemma_ranked_one_cluster(roots, m, i - 1);
        assert(roots[i - 1] == roots[0]);
        assert(seen_before(roots, roots[i - 1], i - 1));
    } else {
        let v = class_size(roots, roots[0]) as u64;
        assert(!seen_before(roots, roots[0], 0));
        assert(ranked_sizes(roots, m, 0) == Seq::<u64>::empty());
        assert(insert_descending(Seq::<u64>::empty(), v) == seq![v]);
        assert(ranked_sizes(roots, m, 1) == offer_largest(Seq::<u64>::empty(), m, v));
    }
}

/// When the connection budget covers every pair, all points end in one
/// cluster, exactly as when every pair is joined directly, and the product
/// of the largest cluster sizes is the number of points.
pub proof fn lemma_full_budget(pts: Seq<Coord>, m: nat, k: nat)
    requires
        1 <= pts.len() <= usize::MAX,
        m >= 1,
        k >= all_edges(pts).len(),
    ensures
        forall|i: int, j: int| 0 <= i < pts.len() && 0 <= j < pts.len() ==> (
            (clusters_of(pts, k)[i] == clusters_of(pts, k)[j])
            == (link_all(singletons(pts.len()), all_edges(pts))[i] == link_all(singletons(pts.len()), all_edges(pts))[j])),
        forall|i: int| 0 <= i < pts.len() ==> #[trigger] clusters_of(pts, k)[i] == clusters_of(pts, k)[0],
        cluster_product(pts, m, k) == pts.len(),
{
    let n = pts.len();
    let all = all_edges(pts);
    let sel = select_smallest(all, k);
    lemma_rows_len_shape(pts, n as int);
    lemma_first_row(pts, n as int);
    lemma_select_keeps_all(all, k);
    lemma_select_in_range(all, k, n as int);
    assert forall|t: int| 1 <= t < n implies all.contains(#[trigger] edge_of(pts, 0, t)) by {
        assert(all[t - 1] == edge_of(pts, 0, t));
    }
    assert forall|t: int| 1 <= t < n implies sel.contains(#[trigger] edge_of(pts, 0, t)) by {
        assert(all[t - 1] == edge_of(pts, 0, t));
    }
    lemma_star_joins_all(pts, sel);
    lemma_star_joins_all(pts, all);
    let roots = clusters_of(pts, k);
    lemma_ranked_one_cluster(roots, m, n as int);
    lemma_int_range(0, n as int);
    assert(class(roots, roots[0]) =~= set_int_range(0, n as int));
    assert(class_size(roots, roots[0]) == n);
    let single = seq![n as u64];
    assert(single.drop_last() =~= Seq::<u64>::empty());
    assert(product(single) == product(Seq::<u64>::empty()) * n);
}

/// The sweep step as a closure, as `sweep` folds it.
pub open spec fn sweep_fn() -> spec_fn((Seq<int>, Option<Edge>), Edge) -> (Seq<int>, Option<Edge>) {
    |st: (Seq<int>, Option<Edge>), e: Edge| sweep_step(st, e)
}

/// Only merging edges matter to the sweep: an edge whose endpoints already
/// share a cluster when the sweep reaches it can be left out, and the
/// clusters and the last merging edge stay the same.
pub proof fn lemma_sweep_skips_idle_edge(s: Seq<Edge>, n: nat, u: int)
    requires
        0 <= u < s.len(),
        ({
            let st = sweep(s.take(u), n);
            st.0[s[u].1 as int] == st.0[s[u].2 as int]
        }),
    ensures
        sweep(s.remove(u), n) == sweep(s, n),
{
    let init = (singletons(n), None::<Edge>);
    let f = sweep_fn();
    assert(sweep(s, n) == s.fold_left(init, f));
    let r = s.remove(u);
    s.lemma_fold_left_split(init, f, u + 1);
    r.lemma_fold_left_split(init, f, u);
    assert(s.subrange(0, u + 1) =~= s.take(u).push(s[u]));
    assert(s.subrange(0, u + 1).drop_last() =~= s.take(u));
    assert(r.subrange(0, u) =~= s.take(u));
    assert(r.subrange(u, r.len() as int) =~= s.subrange(u + 1, s.len() as int));
    assert(s.take(u).fold_left(init, f) == sweep(s.take(u), n));
}

} // verus!
