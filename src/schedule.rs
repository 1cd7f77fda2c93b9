//! Scheduling and reachability over node indices.
//!
//! Nodes are `0..n`; an edge `(a, b)` says that `a` must come before `b`.
//! The schedule is Kahn's algorithm with a fixed tie-break: at every step the
//! ready node of lowest index is taken. Reachability is a depth-first search
//! with an explicit stack.
use vstd::prelude::*;
use vstd::set_lib::{lemma_int_range, lemma_len_subset, lemma_subset_equality, set_int_range};

verus! {

/// `order` lists each of the nodes `0..n` exactly once and every edge goes
/// forward in it.
pub open spec fn is_topological(n: nat, edges: Seq<(usize, usize)>, order: Seq<usize>) -> bool {
    &&& order.len() == n
    &&& order.no_duplicates()
    &&& forall|k: int| 0 <= k < order.len() ==> #[trigger] order[k] < n
    &&& forall|i: usize| i < n ==> #[trigger] order.contains(i)
    &&& forall|j: int, p: int, q: int|
        #![trigger edges[j], order[p], order[q]]
        0 <= j < edges.len() && 0 <= p < order.len() && 0 <= q < order.len() && order[p]
            == edges[j].0 && order[q] == edges[j].1 ==> p < q
}

/// `rank` strictly increases along every edge.
pub open spec fn is_ranking(edges: Seq<(usize, usize)>, rank: spec_fn(usize) -> int) -> bool {
    forall|j: int| 0 <= j < edges.len() ==> rank((#[trigger] edges[j]).0) < rank(edges[j].1)
}

/// The edges form no cycle: some ranking of the nodes increases along each.
pub open spec fn acyclic(edges: Seq<(usize, usize)>) -> bool {
    exists|rank: spec_fn(usize) -> int| is_ranking(edges, rank)
}

/// Every edge that leaves a marked node enters a marked node.
pub open spec fn is_closed(edges: Seq<(usize, usize)>, marked: Seq<bool>) -> bool {
    forall|j: int|
        0 <= j < edges.len() && marked[(#[trigger] edges[j]).0 as int] ==> marked[edges[j].1 as int]
}

/// Every edge joins two of the nodes `0..n`.
pub open spec fn edges_within(n: nat, edges: Seq<(usize, usize)>) -> bool {
    forall|j: int| 0 <= j < edges.len() ==> (#[trigger] edges[j]).0 < n && edges[j].1 < n
}

/// Node `i` is not yet placed and every edge into it starts at a placed node.
pub open spec fn is_ready(n: nat, edges: Seq<(usize, usize)>, placed: Seq<usize>, i: usize) -> bool {
    &&& i < n
    &&& !placed.contains(i)
    &&& forall|j: int| 0 <= j < edges.len() && #[trigger] edges[j].1 == i ==> placed.contains(edges[j].0)
}

/// `i` is the ready node of lowest index.
pub open spec fn is_first_ready(n: nat, edges: Seq<(usize, usize)>, placed: Seq<usize>, i: usize) -> bool {
    is_ready(n, edges, placed, i) && forall|j: usize| j < i ==> !is_ready(n, edges, placed, j)
}

/// The ready node of lowest index, if any node is ready.
pub open spec fn first_ready(n: nat, edges: Seq<(usize, usize)>, placed: Seq<usize>) -> Option<usize> {
    if exists|i: usize| is_first_ready(n, edges, placed, i) {
        Some(choose|i: usize| is_first_ready(n, edges, placed, i))
    } else {
        None
    }
}

/// Extends `placed` by taking the first ready node, at most `fuel` times.
pub open spec fn extend_schedule(n: nat, edges: Seq<(usize, usize)>, placed: Seq<usize>, fuel: nat) -> Seq<usize>
    decreases fuel,
{
    if fuel == 0 {
        placed
    } else {
        match first_ready(n, edges, placed) {
            Some(i) => extend_schedule(n, edges, placed.push(i), (fuel - 1) as nat),
            None => placed,
        }
    }
}

/// The schedule of nodes `0..n`: the ready node of lowest index first, until
/// all are placed or none is ready.
pub open spec fn schedule(n: nat, edges: Seq<(usize, usize)>) -> Seq<usize> {
    extend_schedule(n, edges, Seq::empty(), n)
}

/// No node of `placed` repeats, each lies in `0..n`, and each edge into a
/// placed node starts at a node placed before it.
pub open spec fn is_closed_prefix(n: nat, edges: Seq<(usize, usize)>, placed: Seq<usize>) -> bool {
    &&& placed.no_duplicates()
    &&& forall|k: int| 0 <= k < placed.len() ==> #[trigger] placed[k] < n
    &&& forall|j: int, q: int|
        0 <= j < edges.len() && 0 <= q < placed.len() && #[trigger] placed[q] == #[trigger] edges[j].1
            ==> exists|p: int| 0 <= p < q && placed[p] == edges[j].0
}

/// A sequence of distinct nodes of `0..n` has at most `n` elements, has every
/// node when it has `n`, and misses one when it has fewer.
pub proof fn lemma_distinct_nodes(n: nat, s: Seq<usize>)
    requires
        n <= usize::MAX,
        s.no_duplicates(),
        forall|k: int| 0 <= k < s.len() ==> #[trigger] s[k] < n,
    ensures
        s.len() <= n,
        s.len() == n ==> forall|i: usize| i < n ==> #[trigger] s.contains(i),
        s.len() < n ==> exists|i: usize| i < n && !s.contains(i),
{
    let r = set_int_range(0, n as int);
    let t = s.to_set().map(|x: usize| x as int);
    lemma_int_range(0, n as int);
    s.unique_seq_to_set();
    assert(t.subset_of(r)) by {
        assert forall|y: int| t.contains(y) implies r.contains(y) by {
            let x = choose|x: usize| s.to_set().contains(x) && x as int == y;
            let k = choose|k: int| 0 <= k < s.len() && s[k] == x;
        }
    }
    lemma_len_subset(t, r);
    vstd::set_lib::lemma_map_size(s.to_set(), t, |x: usize| x as int);
    if s.len() == n {
        lemma_subset_equality(t, r);
        assert forall|i: usize| i < n implies #[trigger] s.contains(i) by {
            assert(r.contains(i as int));
            assert(t.contains(i as int));
            let x = choose|x: usize| s.to_set().contains(x) && x as int == i as int;
        }
    }
    if s.len() < n {
        if forall|i: usize| i < n ==> s.contains(i) {
            assert(r.subset_of(t)) by {
                assert forall|y: int| r.contains(y) implies t.contains(y) by {
                    let x = y as usize;
                    assert(x as int == y);
                    assert(s.contains(x));
                    assert(s.to_set().contains(x));
                }
            }
            lemma_len_subset(r, t);
        }
    }
}

/// An unplaced node whose rank is least among the unplaced nodes below `k`,
/// and no greater than that of `x`.
proof fn least_unplaced(n: nat, placed: Seq<usize>, rank: spec_fn(usize) -> int, k: nat, x: usize) -> (m: usize)
    requires
        x < n,
        !placed.contains(x),
        k <= n,
    ensures
        m < n,
        !placed.contains(m),
        rank(m) <= rank(x),
        forall|y: usize| y < k && !placed.contains(y) ==> rank(m) <= rank(y),
    decreases k,
{
    if k == 0 {
        x
    } else {
        let m0 = least_unplaced(n, placed, rank, (k - 1) as nat, x);
        let y = (k - 1) as usize;
        if !placed.contains(y) && rank(y) < rank(m0) {
            y
        } else {
            m0
        }
    }
}

/// When no node is ready and some node is not placed, the edges have a
/// cycle: no ranking exists.
pub proof fn lemma_stuck_means_cycle(n: nat, edges: Seq<(usize, usize)>, placed: Seq<usize>, x: usize)
    requires
        x < n,
        !placed.contains(x),
        edges_within(n, edges),
        forall|i: usize| !is_ready(n, edges, placed, i),
    ensures
        !acyclic(edges),
{
    if acyclic(edges) {
        let rank = choose|rank: spec_fn(usize) -> int| is_ranking(edges, rank);
        let m = least_unplaced(n, placed, rank, n, x);
        assert(!is_ready(n, edges, placed, m));
        let j = choose|j: int| 0 <= j < edges.len() && #[trigger] edges[j].1 == m && !placed.contains(edges[j].0);
        assert(edges[j].0 < n);
        assert(rank(edges[j].0) < rank(m));
    }
}

/// The position of each node in a topological order ranks the edges.
pub proof fn lemma_topological_is_acyclic(n: nat, edges: Seq<(usize, usize)>, order: Seq<usize>)
    requires
        edges_within(n, edges),
        is_topological(n, edges, order),
    ensures
        acyclic(edges),
{
    let rank = |x: usize| choose|p: int| 0 <= p < order.len() && order[p] == x;
    assert forall|j: int| 0 <= j < edges.len() implies rank((#[trigger] edges[j]).0) < rank(edges[j].1) by {
        let (u, v) = edges[j];
        assert(order.contains(u));
        assert(order.contains(v));
        let p = rank(u);
        let q = rank(v);
        assert(order[p] == edges[j].0 && order[q] == edges[j].1);
    }
    assert(is_ranking(edges, rank));
}

/// A closed prefix that holds every node is a topological order.
pub proof fn lemma_full_prefix_is_topological(n: nat, edges: Seq<(usize, usize)>, placed: Seq<usize>)
    requires
        n <= usize::MAX,
        is_closed_prefix(n, edges, placed),
        placed.len() == n,
    ensures
        is_topological(n, edges, placed),
{
    lemma_distinct_nodes(n, placed);
    assert forall|j: int, p: int, q: int|
        #![trigger edges[j], placed[p], placed[q]]
        0 <= j < edges.len() && 0 <= p < placed.len() && 0 <= q < placed.len() && placed[p]
            == edges[j].0 && placed[q] == edges[j].1 implies p < q by {
        let p2 = choose|p2: int| 0 <= p2 < q && placed[p2] == edges[j].0;
        assert(placed[p2] == placed[p]);
    }
}

/// A node that is first ready is the one [`first_ready`] gives.
proof fn lemma_first_ready_unique(n: nat, edges: Seq<(usize, usize)>, placed: Seq<usize>, c: usize)
    requires
        is_first_ready(n, edges, placed, c),
    ensures
        first_ready(n, edges, placed) == Some(c),
{
    let d = choose|i: usize| is_first_ready(n, edges, placed, i);
    assert(is_first_ready(n, edges, placed, d));
    if d < c {
        assert(!is_ready(n, edges, placed, d));
    } else if c < d {
        assert(!is_ready(n, edges, placed, c));
    }
}

/// Computes [`schedule`]: the nodes in an order where every edge goes
/// forward, as far as the edges allow.
///
/// The result holds all `n` nodes exactly when the edges form no cycle.
pub(crate) fn schedule_nodes(n: usize, edges: &Vec<(usize, usize)>) -> (order: Vec<usize>)
    requires
        edges_within(n as nat, edges@),
    ensures
        order@ == schedule(n as nat, edges@),
        is_closed_prefix(n as nat, edges@, order@),
        order@.len() <= n,
        order@.len() == n <==> acyclic(edges@),
        order@.len() == n ==> is_topological(n as nat, edges@, order@),
{
    let ghost es = edges@;
    let mut order: Vec<usize> = Vec::new();
    let mut placed: Vec<bool> = Vec::new();
    let mut i: usize = 0;
    while i < n
        invariant
            i <= n,
            placed@.len() == i,
            forall|k: int| 0 <= k < i ==> !placed@[k],
        decreases n - i,
    {
        placed.push(false);
        i = i + 1;
    }
    let ghost mut fuel: nat = n as nat;
    proof {
        assert forall|k: int| 0 <= k < n implies (#[trigger] placed@[k] <==> order@.contains(k as usize)) by {}
    }
    loop
        invariant
            es == edges@,
            edges_within(n as nat, es),
            placed@.len() == n,
            order@.len() + fuel == n,
            is_closed_prefix(n as nat, es, order@),
            forall|k: int| 0 <= k < n ==> (#[trigger] placed@[k] <==> order@.contains(k as usize)),
            extend_schedule(n as nat, es, order@, fuel) == schedule(n as nat, es),
            fuel == 0 ==> order@.len() == n,
        ensures
            order@ == schedule(n as nat, es),
            is_closed_prefix(n as nat, es, order@),
            order@.len() == n <==> acyclic(es),
        decreases fuel,
    {
        let ghost ov = order@;
        proof { lemma_distinct_nodes(n as nat, ov); }
        if order.len() == n {
            proof {
                lemma_full_prefix_is_topological(n as nat, es, ov);
                lemma_topological_is_acyclic(n as nat, es, ov);
            }
            break;
        }
        // blocked[k]: some edge into k starts at a node not yet placed
        let mut blocked: Vec<bool> = Vec::new();
        let mut b: usize = 0;
        while b < n
            invariant
                b <= n,
                blocked@.len() == b,
                forall|k: int| 0 <= k < b ==> !blocked@[k],
            decreases n - b,
        {
            blocked.push(false);
            b = b + 1;
        }
        let mut j: usize = 0;
        while j < edges.len()
            invariant
                es == edges@,
                edges_within(n as nat, es),
                placed@.len() == n,
                blocked@.len() == n,
                j <= es.len(),
                forall|k: int|
                    0 <= k < n ==> (#[trigger] blocked@[k] <==> exists|jj: int|
                        0 <= jj < j && es[jj].1 == k && !placed@[es[jj].0 as int]),
            decreases es.len() - j,
        {
            let (a, t) = edges[j];
            proof { assert(es[j as int].0 < n && es[j as int].1 < n); }
            if !placed[a] {
                blocked.set(t, true);
            }
            j = j + 1;
            proof {
                assert forall|k: int| 0 <= k < n implies (#[trigger] blocked@[k] <==> exists|jj: int|
                    0 <= jj < j && es[jj].1 == k && !placed@[es[jj].0 as int]) by {
                    if exists|jj: int| 0 <= jj < j && es[jj].1 == k && !placed@[es[jj].0 as int] {
                        let jj = choose|jj: int| 0 <= jj < j && es[jj].1 == k && !placed@[es[jj].0 as int];
                        if jj < j - 1 {
                        }
                    }
                }
            }
        }
        proof {
            assert forall|k: usize| k < n implies (is_ready(n as nat, es, ov, k) <==> (!placed@[k as int] && !blocked@[k as int])) by {
                if !placed@[k as int] && !blocked@[k as int] {
                    assert forall|jj: int| 0 <= jj < es.len() && #[trigger] es[jj].1 == k implies ov.contains(es[jj].0) by {
                        assert(es[jj].0 < n);
                        assert(placed@[es[jj].0 as int]);
                    }
                }
                if is_ready(n as nat, es, ov, k) && blocked@[k as int] {
                    let jj = choose|jj: int| 0 <= jj < es.len() && es[jj].1 == k && !placed@[es[jj].0 as int];
                    assert(es[jj].0 < n);
                    assert(ov.contains(es[jj].0));
                }
            }
        }
        // the first node that is neither placed nor blocked
        let mut c: usize = 0;
        let mut found: bool = false;
        while c < n
            invariant_except_break
                !found,
            invariant
                placed@.len() == n,
                blocked@.len() == n,
                c <= n,
                forall|k: int| 0 <= k < c ==> placed@[k] || blocked@[k],
            ensures
                found ==> c < n && !placed@[c as int] && !blocked@[c as int],
                forall|k: int| 0 <= k < c ==> placed@[k] || blocked@[k],
                !found ==> c == n,
            decreases n - c,
        {
            if !placed[c] && !blocked[c] {
                found = true;
                break;
            }
            c = c + 1;
        }
        if !found {
            proof {
                assert forall|k: usize| !is_ready(n as nat, es, ov, k) by {
                    if k < n {
                        assert(placed@[k as int] || blocked@[k as int]);
                    }
                }
                assert(first_ready(n as nat, es, ov) is None);
                let missing = choose|x: usize| x < n && !ov.contains(x);
                lemma_stuck_means_cycle(n as nat, es, ov, missing);
                assert(fuel > 0);
            }
            break;
        }
        proof {
            assert(is_ready(n as nat, es, ov, c));
            assert forall|k: usize| k < c implies !is_ready(n as nat, es, ov, k) by {
                assert(placed@[k as int] || blocked@[k as int]);
            }
            lemma_first_ready_unique(n as nat, es, ov, c);
        }
        order.push(c);
        placed.set(c, true);
        proof {
            let nv = order@;
            assert(nv == ov.push(c));
            assert(extend_schedule(n as nat, es, ov, fuel) == extend_schedule(n as nat, es, nv, (fuel - 1) as nat));
            fuel = (fuel - 1) as nat;
            // still a closed prefix
            assert forall|a: int, bb: int| 0 <= a < bb < nv.len() implies nv[a] != nv[bb] by {
                if bb == nv.len() - 1 {
                    assert(ov.contains(ov[a]));
                }
            }
            assert forall|j2: int, q: int|
                0 <= j2 < es.len() && 0 <= q < nv.len() && #[trigger] nv[q] == #[trigger] es[j2].1
                implies exists|p: int| 0 <= p < q && nv[p] == es[j2].0 by {
                if q == nv.len() - 1 {
                    assert(ov.contains(es[j2].0));
                    let p = choose|p: int| 0 <= p < ov.len() && ov[p] == es[j2].0;
                    assert(nv[p] == es[j2].0);
                } else {
                    assert(nv[q] == ov[q]);
                    let p = choose|p: int| 0 <= p < q && ov[p] == es[j2].0;
                    assert(nv[p] == es[j2].0);
                }
            }
            assert forall|k: int| 0 <= k < n implies (#[trigger] placed@[k] <==> nv.contains(k as usize)) by {
                if k == c as int {
                    assert(nv[nv.len() - 1] == c);
                } else {
                    if nv.contains(k as usize) {
                        let p = choose|p: int| 0 <= p < nv.len() && nv[p] == k as usize;
                        assert(ov[p] == k as usize);
                    }
                    if ov.contains(k as usize) {
                        let p = choose|p: int| 0 <= p < ov.len() && ov[p] == k as usize;
                        assert(nv[p] == k as usize);
                    }
                }
            }
        }
    }
    proof {
        lemma_distinct_nodes(n as nat, order@);
        if order@.len() == n {
            lemma_full_prefix_is_topological(n as nat, es, order@);
        }
    }
    order
}

/// Whether `target` can be reached from `from` along the edges. When it
/// cannot, the nodes reached form a closed set that holds `from` but not
/// `target`.
pub(crate) fn reaches(n: usize, edges: &Vec<(usize, usize)>, from: usize, target: usize) -> (r: bool)
    requires
        edges_within(n as nat, edges@),
        from < n,
        target < n,
    ensures
        r ==> forall|rank: spec_fn(usize) -> int| #[trigger] is_ranking(edges@, rank) ==> rank(from) <= rank(target),
        !r ==> exists|marked: Seq<bool>|
            marked.len() == n && marked[from as int] && !marked[target as int] && is_closed(edges@, marked),
{
    let ghost es = edges@;
    // successors of each node
    let mut succ: Vec<Vec<usize>> = Vec::new();
    let mut i: usize = 0;
    while i < n
        invariant
            i <= n,
            succ@.len() == i,
            forall|x: int| 0 <= x < i ==> succ@[x]@.len() == 0,
        decreases n - i,
    {
        succ.push(Vec::new());
        i = i + 1;
    }
    let mut j: usize = 0;
    while j < edges.len()
        invariant
            es == edges@,
            edges_within(n as nat, es),
            j <= es.len(),
            succ@.len() == n,
            forall|x: int, k: int|
                0 <= x < n && 0 <= k < succ@[x]@.len() ==> #[trigger] succ@[x]@[k] < n && exists|jj: int|
                    0 <= jj < j && es[jj].0 == x && es[jj].1 == succ@[x]@[k],
            forall|jj: int| 0 <= jj < j ==> (#[trigger] succ@[es[jj].0 as int]@).contains(es[jj].1),
        decreases es.len() - j,
    {
        let (a, b) = edges[j];
        proof { assert(es[j as int] == (a, b)); }
        let ghost before = succ@;
        succ[a].push(b);
        proof {
            assert(succ@[a as int]@ == before[a as int]@.push(b));
            assert forall|jj: int| 0 <= jj < j + 1 implies (#[trigger] succ@[es[jj].0 as int]@).contains(es[jj].1) by {
                if jj == j as int {
                    assert(succ@[a as int]@[succ@[a as int]@.len() - 1] == b);
                } else if es[jj].0 == a {
                    let k = choose|k: int| 0 <= k < before[a as int]@.len() && before[a as int]@[k] == es[jj].1;
                    assert(succ@[a as int]@[k] == es[jj].1);
                } else {
                    assert(succ@[es[jj].0 as int] == before[es[jj].0 as int]);
                }
            }
            assert forall|x: int, k: int|
                0 <= x < n && 0 <= k < succ@[x]@.len() implies #[trigger] succ@[x]@[k] < n && exists|jj: int|
                    0 <= jj < j + 1 && es[jj].0 == x && es[jj].1 == succ@[x]@[k] by {
                if x == a as int && k == succ@[x]@.len() - 1 {
                    assert(es[j as int].0 == x && es[j as int].1 == succ@[x]@[k]);
                } else {
                    assert(succ@[x]@[k] == before[x]@[k]);
                    let jj = choose|jj: int| 0 <= jj < j && es[jj].0 == x && es[jj].1 == before[x]@[k];
                }
            }
        }
        j = j + 1;
    }
    // depth-first search from `from`
    let mut marked: Vec<bool> = Vec::new();
    let mut i: usize = 0;
    while i < n
        invariant
            i <= n,
            marked@.len() == i,
            forall|x: int| 0 <= x < i ==> !marked@[x],
        decreases n - i,
    {
        marked.push(false);
        i = i + 1;
    }
    let mut stack: Vec<usize> = Vec::new();
    marked.set(from, true);
    stack.push(from);
    let ghost mut seen: Seq<usize> = seq![from];
    proof {
        assert forall|x: int| 0 <= x < n implies (#[trigger] marked@[x] <==> seen.contains(x as usize)) by {
            if x == from as int {
                assert(seen[0] == from);
            }
        }
    }
    while stack.len() > 0
        invariant
            es == edges@,
            edges_within(n as nat, es),
            from < n,
            succ@.len() == n,
            forall|x: int, k: int|
                0 <= x < n && 0 <= k < succ@[x]@.len() ==> #[trigger] succ@[x]@[k] < n && exists|jj: int|
                    0 <= jj < es.len() && es[jj].0 == x && es[jj].1 == succ@[x]@[k],
            forall|jj: int| 0 <= jj < es.len() ==> (#[trigger] succ@[es[jj].0 as int]@).contains(es[jj].1),
            marked@.len() == n,
            marked@[from as int],
            forall|x: int| 0 <= x < n ==> (#[trigger] marked@[x] <==> seen.contains(x as usize)),
            seen.no_duplicates(),
            forall|k: int| 0 <= k < seen.len() ==> #[trigger] seen[k] < n,
            stack@.no_duplicates(),
            stack@.len() <= seen.len(),
            forall|k: int| 0 <= k < stack@.len() ==> #[trigger] stack@[k] < n && marked@[stack@[k] as int],
            forall|x: int, k: int|
                0 <= x < n && marked@[x] && !stack@.contains(x as usize) && 0 <= k < succ@[x]@.len()
                    ==> marked@[#[trigger] succ@[x]@[k] as int],
            forall|rank: spec_fn(usize) -> int| #[trigger]
                is_ranking(es, rank) ==> forall|x: int| 0 <= x < n && marked@[x] ==> rank(from) <= rank(x as usize),
        decreases 2 * (n - seen.len()) + stack@.len(),
    {
        proof { lemma_distinct_nodes(n as nat, seen); }
        let ghost measure0 = 2 * (n - seen.len()) + stack@.len();
        let ghost stack_before = stack@;
        let x = stack.pop().unwrap();
        let ghost stack_after_pop = stack@;
        proof {
            assert(stack_before == stack_after_pop.push(x));
            assert(!stack@.contains(x)) by {
                if stack@.contains(x) {
                    let k = choose|k: int| 0 <= k < stack@.len() && stack@[k] == x;
                    assert(stack_before[k] == stack_before[stack@.len() as int]);
                }
            }
            assert forall|y: int| 0 <= y < n && y != x && !stack@.contains(y as usize) implies !#[trigger] stack_before.contains(
                y as usize,
            ) by {
                if stack_before.contains(y as usize) {
                    let k = choose|k: int| 0 <= k < stack_before.len() && stack_before[k] == y as usize;
                    assert(k < stack@.len());
                    assert(stack@[k] == y as usize);
                }
            }
            assert forall|kk: int| 0 <= kk < stack@.len() implies #[trigger] stack@[kk] < n && marked@[stack@[kk] as int] by {
                assert(stack@[kk] == stack_before[kk]);
            }
        }
        let mut k: usize = 0;
        let count = succ[x].len();
        while k < count
            invariant
                es == edges@,
                edges_within(n as nat, es),
                from < n,
                x < n,
                marked@[x as int],
                !stack@.contains(x),
                count == succ@[x as int]@.len(),
                succ@.len() == n,
                forall|x: int, k: int|
                    0 <= x < n && 0 <= k < succ@[x]@.len() ==> #[trigger] succ@[x]@[k] < n && exists|jj: int|
                        0 <= jj < es.len() && es[jj].0 == x && es[jj].1 == succ@[x]@[k],
                forall|jj: int| 0 <= jj < es.len() ==> (#[trigger] succ@[es[jj].0 as int]@).contains(es[jj].1),
                k <= count,
                forall|kk: int| 0 <= kk < k ==> marked@[#[trigger] succ@[x as int]@[kk] as int],
                marked@.len() == n,
                marked@[from as int],
                forall|y: int| 0 <= y < n ==> (#[trigger] marked@[y] <==> seen.contains(y as usize)),
                seen.no_duplicates(),
                forall|kk: int| 0 <= kk < seen.len() ==> #[trigger] seen[kk] < n,
                stack@.no_duplicates(),
                stack@.len() < seen.len(),
                stack@.len() + 1 + 2 * (n - seen.len()) <= measure0,
                forall|kk: int| 0 <= kk < stack@.len() ==> #[trigger] stack@[kk] < n && marked@[stack@[kk] as int],
                forall|y: int, kk: int|
                    0 <= y < n && y != x && marked@[y] && !stack@.contains(y as usize) && 0 <= kk < succ@[y]@.len()
                        ==> marked@[#[trigger] succ@[y]@[kk] as int],
                forall|rank: spec_fn(usize) -> int| #[trigger]
                    is_ranking(es, rank) ==> forall|y: int| 0 <= y < n && marked@[y] ==> rank(from) <= rank(y as usize),
            decreases count - k,
        {
            let y = succ[x][k];
            if !marked[y] {
                proof {
                    assert forall|rank: spec_fn(usize) -> int| #[trigger]
                        is_ranking(es, rank) implies rank(from) <= rank(y) by {
                        let jj = choose|jj: int| 0 <= jj < es.len() && es[jj].0 == x && es[jj].1 == succ@[x as int]@[k as int];
                        assert(rank(es[jj].0) < rank(es[jj].1));
                    }
                    assert(!stack@.contains(y)) by {
                        if stack@.contains(y) {
                            let kk = choose|kk: int| 0 <= kk < stack@.len() && stack@[kk] == y;
                        }
                    }
                    assert(!seen.contains(y));
                }
                let ghost marked_before = marked@;
                let ghost stack_before_push = stack@;
                marked.set(y, true);
                stack.push(y);
                proof {
                    assert forall|z: int, kk: int|
                        0 <= z < n && z != x && marked@[z] && !stack@.contains(z as usize) && 0 <= kk < succ@[z]@.len()
                            implies marked@[#[trigger] succ@[z]@[kk] as int] by {
                        assert(z != y as int) by {
                            assert(stack@[stack@.len() - 1] == y);
                        }
                        assert(marked_before[z]);
                        assert(!stack_before_push.contains(z as usize)) by {
                            if stack_before_push.contains(z as usize) {
                                let p = choose|p: int| 0 <= p < stack_before_push.len() && stack_before_push[p] == z as usize;
                                assert(stack@[p] == z as usize);
                            }
                        }
                    }
                    assert forall|a: int, b: int| 0 <= a < b < stack@.len() implies stack@[a] != stack@[b] by {
                        if b == stack@.len() - 1 {
                            assert(marked_before[stack_before_push[a] as int]);
                        }
                    }
                    assert forall|kk: int| 0 <= kk < stack@.len() implies #[trigger] stack@[kk] < n && marked@[stack@[kk] as int] by {
                        if kk < stack_before_push.len() {
                            assert(stack@[kk] == stack_before_push[kk]);
                        }
                    }
                    assert(!stack@.contains(x)) by {
                        if stack@.contains(x) {
                            let p = choose|p: int| 0 <= p < stack@.len() && stack@[p] == x;
                            if p < stack_before_push.len() {
                                assert(stack_before_push[p] == x);
                            }
                        }
                    }
                    let old_seen = seen;
                    seen = seen.push(y);
                    assert forall|a: int, b: int| 0 <= a < b < seen.len() implies seen[a] != seen[b] by {
                        if b == seen.len() - 1 {
                            assert(old_seen.contains(old_seen[a]));
                        }
                    }
                    assert forall|z: int| 0 <= z < n implies (#[trigger] marked@[z] <==> seen.contains(z as usize)) by {
                        if z == y as int {
                            assert(seen[seen.len() - 1] == y);
                        } else if seen.contains(z as usize) {
                            let p = choose|p: int| 0 <= p < seen.len() && seen[p] == z as usize;
                            assert(old_seen[p] == z as usize);
                        } else if old_seen.contains(z as usize) {
                            let p = choose|p: int| 0 <= p < old_seen.len() && old_seen[p] == z as usize;
                            assert(seen[p] == z as usize);
                        }
                    }
                }
            }
            k = k + 1;
        }
        proof { lemma_distinct_nodes(n as nat, seen); }
    }
    let r = marked[target];
    proof {
        if !r {
            assert forall|jj: int|
                0 <= jj < es.len() && marked@[(#[trigger] es[jj]).0 as int] implies marked@[es[jj].1 as int] by {
                let a = es[jj].0 as int;
                assert(succ@[a]@.contains(es[jj].1));
                let kk = choose|kk: int| 0 <= kk < succ@[a]@.len() && succ@[a]@[kk] == es[jj].1;
                assert(!stack@.contains(a as usize));
            }
            assert(is_closed(es, marked@));
        }
    }
    r
}

} // verus!
