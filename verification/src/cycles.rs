//! Circular dependencies among the entries of a locale: every elementary cycle
//! of the reference graph, each reported once, starting at its smallest node.

use vstd::prelude::*;

verus! {

/// Every node index named in an adjacency list lies inside the graph.
pub open spec fn graph_wf(g: Seq<Seq<usize>>) -> bool {
    forall|a: int, j: int| 0 <= a < g.len() && 0 <= j < g[a].len() ==> #[trigger] g[a][j] < g.len()
}

/// There is an edge from `a` to `b`.
pub open spec fn has_edge(g: Seq<Seq<usize>>, a: usize, b: usize) -> bool {
    a < g.len() && g[a as int].contains(b)
}

/// Consecutive nodes of `p` are joined by edges.
pub open spec fn is_path(g: Seq<Seq<usize>>, p: Seq<usize>) -> bool {
    forall|i: int| 0 <= i < p.len() - 1 ==> #[trigger] has_edge(g, p[i], p[i + 1])
}

/// All nodes of `p` are nodes of the graph.
pub open spec fn in_graph(g: Seq<Seq<usize>>, p: Seq<usize>) -> bool {
    forall|i: int| 0 <= i < p.len() ==> #[trigger] p[i] < g.len()
}

/// `c` visits distinct nodes along edges and its last node has an edge back to its first.
pub open spec fn is_elementary_cycle(g: Seq<Seq<usize>>, c: Seq<usize>) -> bool {
    &&& c.len() >= 1
    &&& c.no_duplicates()
    &&& in_graph(g, c)
    &&& is_path(g, c)
    &&& has_edge(g, c.last(), c[0])
}

/// `c` starts at its smallest node.
pub open spec fn starts_at_min(c: Seq<usize>) -> bool {
    forall|i: int| 0 <= i < c.len() ==> c[0] <= #[trigger] c[i]
}

/// An elementary cycle written from its smallest node.
pub open spec fn is_canonical_cycle(g: Seq<Seq<usize>>, c: Seq<usize>) -> bool {
    is_elementary_cycle(g, c) && starts_at_min(c)
}

/// Index of the first occurrence of the smallest element.
pub open spec fn min_index(c: Seq<usize>) -> int
    decreases c.len(),
{
    if c.len() <= 1 {
        0
    } else {
        let m = min_index(c.drop_last());
        if c.last() < c[m] {
            c.len() - 1
        } else {
            m
        }
    }
}

/// `c` read from position `m` round to `m - 1`.
pub open spec fn rotate(c: Seq<usize>, m: int) -> Seq<usize> {
    c.subrange(m, c.len() as int) + c.subrange(0, m)
}

/// `c` rotated to start at its smallest node.
pub open spec fn canonical(c: Seq<usize>) -> Seq<usize> {
    rotate(c, min_index(c))
}

/// `c` followed by its first node again, the form in which a cycle is displayed.
pub open spec fn closed(c: Seq<usize>) -> Seq<usize> {
    c.push(c[0])
}

/// Number of `true` entries.
pub open spec fn count_true(s: Seq<bool>) -> nat
    decreases s.len(),
{
    if s.len() == 0 {
        0
    } else {
        count_true(s.drop_last()) + if s.last() {
            1nat
        } else {
            0nat
        }
    }
}

proof fn lemma_count_true_bound(s: Seq<bool>)
    ensures
        count_true(s) <= s.len(),
    decreases s.len(),
{
    if s.len() > 0 {
        lemma_count_true_bound(s.drop_last());
    }
}

proof fn lemma_count_true_update(s: Seq<bool>, i: int, b: bool)
    requires
        0 <= i < s.len(),
    ensures
        count_true(s.update(i, b)) + (if s[i] {
            1nat
        } else {
            0nat
        }) == count_true(s) + (if b {
            1nat
        } else {
            0nat
        }),
    decreases s.len(),
{
    if i < s.len() - 1 {
        lemma_count_true_update(s.drop_last(), i, b);
        assert(s.update(i, b).drop_last() =~= s.drop_last().update(i, b));
    } else {
        assert(s.update(i, b).drop_last() =~= s.drop_last());
    }
}

proof fn lemma_min_index(c: Seq<usize>)
    requires
        c.len() >= 1,
    ensures
        0 <= min_index(c) < c.len(),
        forall|j: int| 0 <= j < c.len() ==> c[min_index(c)] <= #[trigger] c[j],
        forall|j: int| 0 <= j < min_index(c) ==> c[min_index(c)] < #[trigger] c[j],
    decreases c.len(),
{
    if c.len() > 1 {
        lemma_min_index(c.drop_last());
        let m = min_index(c.drop_last());
        assert forall|j: int| 0 <= j < c.len() - 1 implies c.drop_last()[j] == c[j] by {}
    }
}

proof fn lemma_min_index_of_canonical(c: Seq<usize>)
    requires
        c.len() >= 1,
        c.no_duplicates(),
        starts_at_min(c),
    ensures
        min_index(c) == 0,
{
    lemma_min_index(c);
    let m = min_index(c);
    if m != 0 {
        assert(c[0] <= c[m]);
        assert(c[m] < c[0]);
    }
}

/// Position in `c` of element `k` of `rotate(c, m)`, for `c` of length `n`.
spec fn rot_idx(n: int, m: int, k: int) -> int {
    if k < n - m {
        k + m
    } else {
        k + m - n
    }
}

proof fn lemma_rotate_index(c: Seq<usize>, m: int, k: int)
    requires
        0 <= m < c.len(),
        0 <= k < c.len(),
    ensures
        rotate(c, m).len() == c.len(),
        rotate(c, m)[k] == c[rot_idx(c.len() as int, m, k)],
        0 <= rot_idx(c.len() as int, m, k) < c.len(),
{
}

proof fn lemma_rotate_members(c: Seq<usize>, m: int)
    requires
        0 <= m < c.len(),
    ensures
        forall|k: int| 0 <= k < c.len() ==> #[trigger] rotate(c, m)[k] == c[rot_idx(c.len() as int, m, k)]
            && 0 <= rot_idx(c.len() as int, m, k) < c.len(),
{
    assert forall|k: int| 0 <= k < c.len() implies #[trigger] rotate(c, m)[k] == c[rot_idx(c.len() as int, m, k)]
        && 0 <= rot_idx(c.len() as int, m, k) < c.len() by {
        lemma_rotate_index(c, m, k);
    }
}

proof fn lemma_rotate_no_dup(c: Seq<usize>, m: int)
    requires
        0 <= m < c.len(),
        c.no_duplicates(),
    ensures
        rotate(c, m).no_duplicates(),
{
    let r = rotate(c, m);
    assert forall|a: int, b: int| 0 <= a < r.len() && 0 <= b < r.len() && a != b implies r[a] != r[b] by {
        lemma_rotate_index(c, m, a);
        lemma_rotate_index(c, m, b);
    }
}

proof fn lemma_rotate_path(g: Seq<Seq<usize>>, c: Seq<usize>, m: int)
    requires
        0 <= m < c.len(),
        is_path(g, c),
        has_edge(g, c.last(), c[0]),
    ensures
        is_path(g, rotate(c, m)),
        has_edge(g, rotate(c, m).last(), rotate(c, m)[0]),
{
    let r = rotate(c, m);
    let n = c.len() as int;
    assert forall|i: int| 0 <= i < r.len() - 1 implies #[trigger] has_edge(g, r[i], r[i + 1]) by {
        lemma_rotate_index(c, m, i);
        lemma_rotate_index(c, m, i + 1);
        if i + m == n - 1 {
        } else if i + m < n - 1 {
            let x = i + m;
            assert(has_edge(g, c[x], c[x + 1]));
        } else {
            let x = i + m - n;
            assert(has_edge(g, c[x], c[x + 1]));
        }
    }
    lemma_rotate_index(c, m, n - 1);
    lemma_rotate_index(c, m, 0);
    if m != 0 {
        let x = m - 1;
        assert(has_edge(g, c[x], c[x + 1]));
    }
}

/// Rotating an elementary cycle gives an elementary cycle.
proof fn lemma_rotate_elementary(g: Seq<Seq<usize>>, c: Seq<usize>, m: int)
    requires
        is_elementary_cycle(g, c),
        0 <= m < c.len(),
    ensures
        is_elementary_cycle(g, rotate(c, m)),
        rotate(c, m).len() == c.len(),
        rotate(c, m)[0] == c[m],
        forall|k: int| 0 <= k < c.len() ==> #[trigger] rotate(c, m)[k] == c[rot_idx(c.len() as int, m, k)]
            && 0 <= rot_idx(c.len() as int, m, k) < c.len(),
{
    lemma_rotate_index(c, m, 0);
    lemma_rotate_members(c, m);
    lemma_rotate_no_dup(c, m);
    lemma_rotate_path(g, c, m);
    let r = rotate(c, m);
    assert forall|i: int| 0 <= i < r.len() implies #[trigger] r[i] < g.len() by {
        lemma_rotate_index(c, m, i);
    }
}

/// The canonical form of an elementary cycle is a canonical cycle.
proof fn lemma_canonical_is_canonical(g: Seq<Seq<usize>>, c: Seq<usize>)
    requires
        is_elementary_cycle(g, c),
    ensures
        is_canonical_cycle(g, canonical(c)),
{
    lemma_min_index(c);
    let m = min_index(c);
    lemma_rotate_elementary(g, c, m);
    let r = canonical(c);
    assert forall|i: int| 0 <= i < r.len() implies r[0] <= #[trigger] r[i] by {
        let j = rot_idx(c.len() as int, m, i);
        assert(c[m] <= c[j]);
    }
}

/// A canonical cycle is its own canonical form.
proof fn lemma_canonical_fixed(c: Seq<usize>)
    requires
        c.len() >= 1,
        c.no_duplicates(),
        starts_at_min(c),
    ensures
        canonical(c) == c,
{
    lemma_min_index_of_canonical(c);
    assert(rotate(c, 0) =~= c);
}

/// `w` is a simple path through the graph whose last node has an edge back to `w[i]`.
pub open spec fn closes_at(g: Seq<Seq<usize>>, w: Seq<usize>, i: int) -> bool {
    &&& w.no_duplicates()
    &&& in_graph(g, w)
    &&& is_path(g, w)
    &&& 0 <= i < w.len()
    &&& has_edge(g, w.last(), w[i])
}

/// Every entry is a canonical cycle and none occurs twice.
pub open spec fn found_ok(g: Seq<Seq<usize>>, found: Seq<Seq<usize>>) -> bool {
    &&& found.no_duplicates()
    &&& forall|k: int| 0 <= k < found.len() ==> is_canonical_cycle(g, #[trigger] found[k])
}

/// `found` with `c` appended, unless `c` is among them already.
pub open spec fn add_cycle(found: Seq<Seq<usize>>, c: Seq<usize>) -> Seq<Seq<usize>> {
    if found.contains(c) {
        found
    } else {
        found.push(c)
    }
}

/// The cycles recorded, after `found`, by the depth-first search that enters
/// `cur` from the path `p` with at most `depth` more nodes to enter.
pub open spec fn search_from(g: Seq<Seq<usize>>, depth: nat, p: Seq<usize>, cur: usize, found: Seq<Seq<usize>>) -> Seq<Seq<usize>>
    decreases depth, 0nat,
{
    if depth == 0 {
        found
    } else {
        search_neighbours(g, (depth - 1) as nat, p.push(cur), g[cur as int], found)
    }
}

/// The cycles recorded, after `found`, while the search on path `p` goes
/// through the neighbours `ns` in order: a neighbour on the path closes the
/// cycle from it to the end of the path, which is recorded in canonical form
/// unless it was recorded before; any other neighbour is entered.
pub open spec fn search_neighbours(g: Seq<Seq<usize>>, depth: nat, p: Seq<usize>, ns: Seq<usize>, found: Seq<Seq<usize>>) -> Seq<Seq<usize>>
    decreases depth, ns.len() + 1,
{
    if ns.len() == 0 {
        found
    } else {
        let nb = ns[0];
        let next = if p.contains(nb) {
            add_cycle(found, canonical(p.subrange(p.index_of(nb), p.len() as int)))
        } else {
            search_from(g, depth, p, nb, found)
        };
        search_neighbours(g, depth, p, ns.drop_first(), next)
    }
}

/// The cycles recorded by searches started from the nodes `0..s` in turn.
pub open spec fn searched_cycles(g: Seq<Seq<usize>>, s: nat) -> Seq<Seq<usize>>
    decreases s,
{
    if s == 0 {
        Seq::empty()
    } else {
        search_from(g, g.len(), Seq::empty(), (s - 1) as usize, searched_cycles(g, (s - 1) as nat))
    }
}

/// The cycles of the graph in the order the depth-first search finds them,
/// each in canonical form.
pub open spec fn found_cycles(g: Seq<Seq<usize>>) -> Seq<Seq<usize>> {
    searched_cycles(g, g.len())
}

/// `a` is a prefix of `b`.
pub open spec fn is_prefix(a: Seq<Seq<usize>>, b: Seq<Seq<usize>>) -> bool {
    a.len() <= b.len() && b.subrange(0, a.len() as int) == a
}

proof fn lemma_prefix_contains(a: Seq<Seq<usize>>, b: Seq<Seq<usize>>, x: Seq<usize>)
    requires
        is_prefix(a, b),
        a.contains(x),
    ensures
        b.contains(x),
{
    let k = choose|k: int| 0 <= k < a.len() && a[k] == x;
    assert(b[k] == b.subrange(0, a.len() as int)[k]);
}

proof fn lemma_prefix_trans(a: Seq<Seq<usize>>, b: Seq<Seq<usize>>, c: Seq<Seq<usize>>)
    requires
        is_prefix(a, b),
        is_prefix(b, c),
    ensures
        is_prefix(a, c),
{
    assert(c.subrange(0, a.len() as int) =~= a) by {
        assert forall|k: int| 0 <= k < a.len() implies c.subrange(0, a.len() as int)[k] == a[k] by {
            assert(c[k] == c.subrange(0, b.len() as int)[k]);
            assert(b[k] == b.subrange(0, a.len() as int)[k]);
        }
    }
}

/// The closing segment `w[i..]` of a path that closes at `i` is an elementary cycle.
proof fn lemma_closing_segment(g: Seq<Seq<usize>>, w: Seq<usize>, i: int)
    requires
        closes_at(g, w, i),
    ensures
        is_elementary_cycle(g, w.subrange(i, w.len() as int)),
{
    let c = w.subrange(i, w.len() as int);
    assert forall|a: int| 0 <= a < c.len() - 1 implies #[trigger] has_edge(g, c[a], c[a + 1]) by {
        let x = a + i;
        assert(has_edge(g, w[x], w[x + 1]));
    }
    assert forall|a: int| 0 <= a < c.len() implies #[trigger] c[a] < g.len() by {
        assert(w[a + i] < g.len());
    }
    assert(c.no_duplicates()) by {
        assert forall|a: int, b: int| 0 <= a < c.len() && 0 <= b < c.len() && a != b implies c[a] != c[b] by {
            assert(w[a + i] != w[b + i]);
        }
    }
}

/// Whether two node lists are equal.
fn same_nodes(a: &Vec<usize>, b: &Vec<usize>) -> (r: bool)
    ensures
        r == (a@ == b@),
{
    if a.len() != b.len() {
        return false;
    }
    let mut i: usize = 0;
    while i < a.len()
        invariant
            a.len() == b.len(),
            i <= a.len(),
            forall|k: int| 0 <= k < i ==> a@[k] == b@[k],
        decreases a.len() - i,
    {
        if a[i] != b[i] {
            return false;
        }
        i = i + 1;
    }
    assert(a@ =~= b@);
    true
}

/// Whether `c` is already among the cycles found.
fn contains_cycle(found: &Vec<Vec<usize>>, c: &Vec<usize>) -> (r: bool)
    ensures
        r == found.deep_view().contains(c@),
{
    let mut k: usize = 0;
    while k < found.len()
        invariant
            k <= found.len(),
            forall|j: int| 0 <= j < k ==> found.deep_view()[j] != c@,
        decreases found.len() - k,
    {
        assert(found.deep_view()[k as int] == found@[k as int]@);
        if same_nodes(&found[k], c) {
            assert(found.deep_view()[k as int] == c@);
            return true;
        }
        k = k + 1;
    }
    false
}

/// Index of the first occurrence of `x` in `path`.
fn position_of(path: &Vec<usize>, x: usize) -> (i: usize)
    requires
        path@.contains(x),
    ensures
        i < path.len(),
        path@[i as int] == x,
{
    let mut i: usize = 0;
    while i < path.len()
        invariant
            i <= path.len(),
            path@.contains(x),
            forall|k: int| 0 <= k < i ==> path@[k] != x,
        decreases path.len() - i,
    {
        if path[i] == x {
            return i;
        }
        i = i + 1;
    }
    proof {
        let k = choose|k: int| 0 <= k < path.len() && path@[k] == x;
        assert(false);
    }
    0
}

/// The nodes of `c` from its smallest node round to the one before it.
fn canonical_rotation(c: &Vec<usize>) -> (r: Vec<usize>)
    requires
        c.len() >= 1,
    ensures
        r@ == canonical(c@),
{
    let mut m: usize = 0;
    let mut i: usize = 1;
    assert(c@.take(1).len() == 1);
    while i < c.len()
        invariant
            1 <= i <= c.len(),
            m < i,
            m == min_index(c@.take(i as int)),
            c@.take(i as int)[m as int] == c@[m as int],
        decreases c.len() - i,
    {
        assert(c@.take(i as int + 1).drop_last() =~= c@.take(i as int));
        if c[i] < c[m] {
            m = i;
        }
        i = i + 1;
    }
    assert(c@.take(c.len() as int) =~= c@);
    let mut r: Vec<usize> = Vec::new();
    let mut k: usize = m;
    while k < c.len()
        invariant
            m <= k <= c.len(),
            r@ == c@.subrange(m as int, k as int),
        decreases c.len() - k,
    {
        r.push(c[k]);
        k = k + 1;
        assert(r@ =~= c@.subrange(m as int, k as int));
    }
    let mut k: usize = 0;
    while k < m
        invariant
            k <= m,
            m < c.len(),
            r@ == c@.subrange(m as int, c.len() as int) + c@.subrange(0, k as int),
        decreases m - k,
    {
        r.push(c[k]);
        k = k + 1;
        assert(r@ =~= c@.subrange(m as int, c.len() as int) + c@.subrange(0, k as int));
    }
    r
}

/// Depth-first search from `current`, extending `path`; records the canonical
/// form of every cycle that closes on the current path.
fn dfs(
    current: usize,
    path: &mut Vec<usize>,
    on_path: &mut Vec<bool>,
    edges: &Vec<Vec<usize>>,
    found: &mut Vec<Vec<usize>>,
    budget: usize,
)
    requires
        budget == edges.len() - old(path)@.len(),
        graph_wf(edges.deep_view()),
        current < edges.len(),
        old(path)@.no_duplicates(),
        in_graph(edges.deep_view(), old(path)@),
        is_path(edges.deep_view(), old(path)@),
        old(path)@.len() > 0 ==> has_edge(edges.deep_view(), old(path)@.last(), current),
        old(on_path)@.len() == edges.len(),
        forall|v: int| 0 <= v < edges.len() ==> #[trigger] old(on_path)@[v] == old(path)@.contains(v as usize),
        !old(path)@.contains(current),
        count_true(old(on_path)@) == old(path)@.len(),
        found_ok(edges.deep_view(), old(found).deep_view()),
    ensures
        final(path)@ == old(path)@,
        final(on_path)@ == old(on_path)@,
        found_ok(edges.deep_view(), final(found).deep_view()),
        is_prefix(old(found).deep_view(), final(found).deep_view()),
        final(found).deep_view() == search_from(edges.deep_view(), budget as nat, old(path)@, current, old(found).deep_view()),
        forall|q: Seq<usize>, i: int| #[trigger] closes_at(edges.deep_view(), old(path)@.push(current) + q, i)
            ==> final(found).deep_view().contains(
                canonical((old(path)@.push(current) + q).subrange(i, (old(path)@.push(current) + q).len() as int))),
    decreases budget,
{
    let ghost g = edges.deep_view();
    let ghost p0 = path@;
    let ghost f0 = found.deep_view();
    let ghost op0 = on_path@;
    proof {
        lemma_count_true_bound(op0);
        lemma_count_true_update(op0, current as int, true);
    }
    path.push(current);
    on_path.set(current, true);
    let ghost p = path@;
    assert(p == p0.push(current));
    assert(p.no_duplicates());
    assert(is_path(g, p)) by {
        assert forall|a: int| 0 <= a < p.len() - 1 implies #[trigger] has_edge(g, p[a], p[a + 1]) by {
            if a < p0.len() - 1 {
                assert(has_edge(g, p0[a], p0[a + 1]));
            }
        }
    }
    assert(in_graph(g, p));
    assert(forall|v: int| 0 <= v < edges.len() ==> #[trigger] on_path@[v] == p.contains(v as usize)) by {
        assert forall|v: int| 0 <= v < edges.len() implies #[trigger] on_path@[v] == p.contains(v as usize) by {
            if v == current as int {
                assert(p[p.len() - 1] == current);
            } else {
                if p0.contains(v as usize) {
                    let k = choose|k: int| 0 <= k < p0.len() && p0[k] == v as usize;
                    assert(p[k] == v as usize);
                }
                if p.contains(v as usize) {
                    let k = choose|k: int| 0 <= k < p.len() && p[k] == v as usize;
                    assert(p0[k] == v as usize);
                }
            }
        }
    }
    let nbrs = &edges[current];
    assert(nbrs@ == g[current as int]);
    proof {
        lemma_count_true_bound(on_path@);
        assert(found.deep_view().subrange(0, f0.len() as int) =~= f0);
        assert(nbrs@.skip(0) =~= nbrs@);
    }
    let ghost depth: nat = (budget - 1) as nat;
    assert(search_from(g, budget as nat, p0, current, f0) == search_neighbours(g, depth, p, nbrs@, f0));
    let mut j: usize = 0;
    while j < nbrs.len()
        invariant
            g == edges.deep_view(),
            graph_wf(g),
            current < edges.len(),
            nbrs@ == g[current as int],
            j <= nbrs.len(),
            path@ == p,
            p == p0.push(current),
            p.no_duplicates(),
            in_graph(g, p),
            is_path(g, p),
            on_path@ == op0.update(current as int, true),
            on_path@.len() == edges.len(),
            forall|v: int| 0 <= v < edges.len() ==> #[trigger] on_path@[v] == p.contains(v as usize),
            count_true(on_path@) == p.len(),
            p.len() <= edges.len(),
            budget == edges.len() - p0.len(),
            found_ok(g, found.deep_view()),
            is_prefix(f0, found.deep_view()),
            depth == budget - 1,
            search_neighbours(g, depth, p, nbrs@, f0) == search_neighbours(g, depth, p, nbrs@.skip(j as int), found.deep_view()),
            forall|q: Seq<usize>, i: int| #[trigger] closes_at(g, p + q, i) && (if q.len() == 0 {
                exists|jj: int| 0 <= jj < j && nbrs@[jj] == p[i]
            } else {
                exists|jj: int| 0 <= jj < j && nbrs@[jj] == q[0]
            }) ==> found.deep_view().contains(canonical((p + q).subrange(i, (p + q).len() as int))),
        decreases nbrs.len() - j,
    {
        let nb = nbrs[j];
        assert(nb < edges.len());
        let ghost fb = found.deep_view();
        proof {
            assert(nbrs@.skip(j as int)[0] == nb);
            assert(nbrs@.skip(j as int).drop_first() =~= nbrs@.skip(j as int + 1));
        }
        if on_path[nb] {
            assert(p.contains(nb));
            let idx = position_of(path, nb);
            let mut cyc: Vec<usize> = Vec::new();
            let mut t: usize = idx;
            while t < path.len()
                invariant
                    idx <= t <= path.len(),
                    path@ == p,
                    cyc@ == p.subrange(idx as int, t as int),
                decreases path.len() - t,
            {
                cyc.push(path[t]);
                t = t + 1;
                assert(cyc@ =~= p.subrange(idx as int, t as int));
            }
            assert(closes_at(g, p, idx as int)) by {
                assert(nbrs@[j as int] == nb);
                assert(p.last() == current);
            }
            proof {
                lemma_closing_segment(g, p, idx as int);
                lemma_canonical_is_canonical(g, cyc@);
            }
            let canon = canonical_rotation(&cyc);
            let ghost cv = canon@;
            let ghost fvec = found@;
            if !contains_cycle(found, &canon) {
                found.push(canon);
                assert(found@ == fvec.push(canon));
                assert forall|k: int| 0 <= k < found.len() implies found.deep_view()[k] == fb.push(cv)[k] by {
                    if k < fvec.len() {
                        assert(found@[k] == fvec[k]);
                    }
                }
                assert(found.deep_view() =~= fb.push(canon@));
                assert(found_ok(g, found.deep_view())) by {
                    let fd = found.deep_view();
                    assert forall|a: int, b: int| 0 <= a < fd.len() && 0 <= b < fd.len() && a != b implies fd[a] != fd[b] by {
                        if a < fb.len() && b < fb.len() {
                            assert(fd[a] == fb[a]);
                            assert(fd[b] == fb[b]);
                        } else if a == fb.len() {
                            assert(fd[b] == fb[b]);
                        } else {
                            assert(fd[a] == fb[a]);
                        }
                    }
                    assert forall|k: int| 0 <= k < fd.len() implies is_canonical_cycle(g, #[trigger] fd[k]) by {
                        if k < fb.len() {
                            assert(fd[k] == fb[k]);
                        }
                    }
                }
                assert(is_prefix(fb, found.deep_view())) by {
                    assert(found.deep_view().subrange(0, fb.len() as int) =~= fb);
                }
            } else {
                assert(found.deep_view().subrange(0, fb.len() as int) =~= fb);
            }
            let ghost fa = found.deep_view();
            assert(p.index_of(nb) == idx as int) by {
                let i = p.index_of(nb);
                assert(0 <= i < p.len() && p[i] == nb);
            }
            assert(fa == add_cycle(fb, canonical(p.subrange(p.index_of(nb), p.len() as int))));
            assert(fa.contains(canonical(p.subrange(idx as int, p.len() as int)))) by {
                assert(cyc@ == p.subrange(idx as int, p.len() as int));
                if fa.len() > fb.len() {
                    assert(fa[fb.len() as int] == cv);
                }
            }
            proof {
                lemma_prefix_trans(f0, fb, fa);
                assert forall|q: Seq<usize>, i: int| #[trigger] closes_at(g, p + q, i) && (if q.len() == 0 {
                    exists|jj: int| 0 <= jj < j + 1 && nbrs@[jj] == p[i]
                } else {
                    exists|jj: int| 0 <= jj < j + 1 && nbrs@[jj] == q[0]
                }) implies fa.contains(canonical((p + q).subrange(i, (p + q).len() as int))) by {
                    let w = p + q;
                    if q.len() == 0 {
                        assert(w =~= p);
                        if exists|jj: int| 0 <= jj < j && nbrs@[jj] == p[i] {
                            lemma_prefix_contains(fb, fa, canonical(w.subrange(i, w.len() as int)));
                        } else {
                            assert(p[i] == nb);
                            assert(p[idx as int] == nb);
                            assert(i == idx);
                        }
                    } else {
                        if exists|jj: int| 0 <= jj < j && nbrs@[jj] == q[0] {
                            lemma_prefix_contains(fb, fa, canonical(w.subrange(i, w.len() as int)));
                        } else {
                            assert(q[0] == nb);
                            let pi = choose|pi: int| 0 <= pi < p.len() && p[pi] == nb;
                            assert(w[pi] == nb);
                            assert(w[p.len() as int] == nb);
                            assert(false);
                        }
                    }
                }
            }
        } else {
            assert(!p.contains(nb));
            proof {
                lemma_count_true_bound(on_path@);
                lemma_count_true_update(on_path@, nb as int, true);
                assert(count_true(on_path@.update(nb as int, true)) == count_true(on_path@) + 1);
                lemma_count_true_bound(on_path@.update(nb as int, true));
                assert(has_edge(g, p.last(), nb)) by {
                    assert(nbrs@[j as int] == nb);
                }
            }
            dfs(nb, path, on_path, edges, found, budget - 1);
            let ghost fa = found.deep_view();
            proof {
                lemma_prefix_trans(f0, fb, fa);
                assert forall|q: Seq<usize>, i: int| #[trigger] closes_at(g, p + q, i) && (if q.len() == 0 {
                    exists|jj: int| 0 <= jj < j + 1 && nbrs@[jj] == p[i]
                } else {
                    exists|jj: int| 0 <= jj < j + 1 && nbrs@[jj] == q[0]
                }) implies fa.contains(canonical((p + q).subrange(i, (p + q).len() as int))) by {
                    let w = p + q;
                    if q.len() == 0 {
                        assert(w =~= p);
                        if exists|jj: int| 0 <= jj < j && nbrs@[jj] == p[i] {
                            lemma_prefix_contains(fb, fa, canonical(w.subrange(i, w.len() as int)));
                        } else {
                            assert(p[i] == nb);
                            assert(p.contains(nb));
                        }
                    } else {
                        if exists|jj: int| 0 <= jj < j && nbrs@[jj] == q[0] {
                            lemma_prefix_contains(fb, fa, canonical(w.subrange(i, w.len() as int)));
                        } else {
                            assert(q[0] == nb);
                            let q2 = q.drop_first();
                            assert(p.push(nb) + q2 =~= w);
                            assert(closes_at(g, p.push(nb) + q2, i));
                        }
                    }
                }
            }
        }
        j = j + 1;
    }
    assert(nbrs@.skip(j as int).len() == 0);
    proof {
        assert forall|q: Seq<usize>, i: int| #[trigger] closes_at(g, p0.push(current) + q, i) implies
            found.deep_view().contains(canonical((p0.push(current) + q).subrange(i, (p0.push(current) + q).len() as int))) by {
            let w = p + q;
            assert(closes_at(g, p + q, i));
            if q.len() == 0 {
                assert(w =~= p);
                assert(w.last() == current);
                assert(has_edge(g, current, p[i]));
                let jj = choose|jj: int| 0 <= jj < nbrs@.len() && nbrs@[jj] == p[i];
            } else {
                let x = p.len() - 1;
                assert(has_edge(g, w[x], w[x + 1]));
                assert(w[x] == current);
                assert(w[x + 1] == q[0]);
                let jj = choose|jj: int| 0 <= jj < nbrs@.len() && nbrs@[jj] == q[0];
            }
        }
    }
    on_path.set(current, false);
    path.pop();
    proof {
        assert(on_path@ =~= op0) by {
            assert(!op0[current as int]);
        }
        assert(path@ =~= p0);
    }
}


proof fn lemma_count_true_none(n: nat)
    ensures
        count_true(Seq::new(n, |_i: int| false)) == 0,
    decreases n,
{
    if n > 0 {
        assert(Seq::new(n, |_i: int| false).drop_last() =~= Seq::new((n - 1) as nat, |_i: int| false));
        lemma_count_true_none((n - 1) as nat);
    }
}

/// Every elementary cycle of the graph whose nodes are `0..edges.len()` and whose
/// edges run from `a` to each node of `edges[a]`. Each cycle is reported once,
/// written from its smallest node and closed by repeating that node at the end.
pub fn detect_cycles(edges: &Vec<Vec<usize>>) -> (cycles: Vec<Vec<usize>>)
    requires
        graph_wf(edges.deep_view()),
    ensures
        forall|k: int| 0 <= k < cycles.len() ==> {
            let c = #[trigger] cycles.deep_view()[k];
            &&& c.len() >= 2
            &&& c == closed(c.drop_last())
            &&& is_canonical_cycle(edges.deep_view(), c.drop_last())
        },
        forall|c: Seq<usize>| #[trigger] is_canonical_cycle(edges.deep_view(), c) ==> cycles.deep_view().contains(closed(c)),
        cycles.deep_view().no_duplicates(),
        cycles.deep_view() == found_cycles(edges.deep_view()).map_values(|c: Seq<usize>| closed(c)),
{
    let ghost g = edges.deep_view();
    let n = edges.len();
    let mut found: Vec<Vec<usize>> = Vec::new();
    assert(found.deep_view() =~= Seq::<Seq<usize>>::empty());
    let mut start: usize = 0;
    while start < n
        invariant
            g == edges.deep_view(),
            graph_wf(g),
            n == edges.len(),
            start <= n,
            found_ok(g, found.deep_view()),
            found.deep_view() == searched_cycles(g, start as nat),
            forall|c: Seq<usize>| #[trigger] is_canonical_cycle(g, c) && c[0] < start ==> found.deep_view().contains(c),
        decreases n - start,
    {
        let mut path: Vec<usize> = Vec::new();
        let mut on_path: Vec<bool> = Vec::new();
        let mut t: usize = 0;
        while t < n
            invariant
                t <= n,
                on_path@ == Seq::new(t as nat, |_i: int| false),
            decreases n - t,
        {
            on_path.push(false);
            t = t + 1;
            assert(on_path@ =~= Seq::new(t as nat, |_i: int| false));
        }
        proof {
            lemma_count_true_none(n as nat);
        }
        let ghost fb = found.deep_view();
        assert(path@ == Seq::<usize>::empty());
        dfs(start, &mut path, &mut on_path, edges, &mut found, n);
        assert(found.deep_view() == searched_cycles(g, (start + 1) as nat));
        proof {
            let fa = found.deep_view();
            assert forall|c: Seq<usize>| #[trigger] is_canonical_cycle(g, c) && c[0] < start + 1 implies fa.contains(c) by {
                if c[0] < start {
                    lemma_prefix_contains(fb, fa, c);
                } else {
                    let q = c.drop_first();
                    let e: Seq<usize> = Seq::empty();
                    assert(e.push(start) + q =~= c);
                    assert(closes_at(g, e.push(start) + q, 0));
                    assert(c.subrange(0, c.len() as int) =~= c);
                    lemma_canonical_fixed(c);
                }
            }
        }
        start = start + 1;
    }
    let mut cycles: Vec<Vec<usize>> = Vec::new();
    let mut k: usize = 0;
    while k < found.len()
        invariant
            g == edges.deep_view(),
            k <= found.len(),
            found_ok(g, found.deep_view()),
            found.deep_view() == found_cycles(g),
            cycles.len() == k,
            forall|i: int| 0 <= i < k ==> #[trigger] cycles.deep_view()[i] == closed(found.deep_view()[i]),
        decreases found.len() - k,
    {
        let mut c: Vec<usize> = Vec::new();
        let src = &found[k];
        assert(src@ == found.deep_view()[k as int]);
        let mut t: usize = 0;
        while t < src.len()
            invariant
                t <= src.len(),
                c@ == src@.take(t as int),
            decreases src.len() - t,
        {
            c.push(src[t]);
            t = t + 1;
            assert(c@ =~= src@.take(t as int));
        }
        assert(src@.take(src.len() as int) =~= src@);
        assert(is_canonical_cycle(g, found.deep_view()[k as int]));
        c.push(src[0]);
        let ghost cv = c@;
        assert(cv == closed(found.deep_view()[k as int]));
        let ghost before = cycles@;
        let ghost bd = cycles.deep_view();
        cycles.push(c);
        assert forall|i: int| 0 <= i < k + 1 implies #[trigger] cycles.deep_view()[i] == closed(found.deep_view()[i]) by {
            if i < k {
                assert(cycles@[i] == before[i]);
                assert(bd[i] == before[i]@);
            } else {
                assert(cycles@[i]@ == cv);
            }
        }
        k = k + 1;
    }
    proof {
        let fd = found.deep_view();
        let cd = cycles.deep_view();
        assert forall|i: int| 0 <= i < cycles.len() implies {
            let c = #[trigger] cycles.deep_view()[i];
            &&& c.len() >= 2
            &&& c == closed(c.drop_last())
            &&& is_canonical_cycle(g, c.drop_last())
        } by {
            assert(cd[i] == closed(fd[i]));
            assert(is_canonical_cycle(g, fd[i]));
            assert(closed(fd[i]).drop_last() =~= fd[i]);
        }
        assert forall|c: Seq<usize>| #[trigger] is_canonical_cycle(g, c) implies cd.contains(closed(c)) by {
            assert(fd.contains(c));
            let i = choose|i: int| 0 <= i < fd.len() && fd[i] == c;
            assert(cd[i] == closed(c));
        }
        assert forall|a: int, b: int| 0 <= a < cd.len() && 0 <= b < cd.len() && a != b implies cd[a] != cd[b] by {
            assert(cd[a] == closed(fd[a]));
            assert(cd[b] == closed(fd[b]));
            assert(closed(fd[a]).drop_last() =~= fd[a]);
            assert(closed(fd[b]).drop_last() =~= fd[b]);
        }
        assert(cd =~= fd.map_values(|c: Seq<usize>| closed(c)));
    }
    cycles
}

} // verus!
