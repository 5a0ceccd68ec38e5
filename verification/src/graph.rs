//! Dependency graphs of labelled nodes, and their topological order.

use fixedbitset::FixedBitSet;
use vstd::prelude::*;

verus! {

broadcast use vstd::seq_lib::group_seq_properties;

/// A dependency of a node: the node depended on and the labels that put the
/// dependency there.
#[derive(Debug)]
pub struct Dependency {
    pub node: usize,
    pub labels: Vec<u64>,
}

/// Why no topological order exists: a cycle, as a list of nodes each with
/// the labels of its dependency on the next (the last depends on the first).
#[derive(Debug)]
pub enum DependencyGraphError {
    GraphCycles(Vec<(usize, Vec<u64>)>),
}

/// Every dependency names a node of the graph.
pub open spec fn valid_graph(g: Seq<Vec<Dependency>>) -> bool {
    forall|i: int, j: int| 0 <= i < g.len() && 0 <= j < g[i]@.len() ==> (#[trigger] g[i]@[j]).node < g.len()
}

/// Whether `order` lists every node exactly once, each after all the nodes
/// it depends on.
pub open spec fn is_topological_order(g: Seq<Vec<Dependency>>, order: Seq<usize>) -> bool {
    &&& order.no_duplicates()
    &&& forall|k: int| 0 <= k < order.len() ==> #[trigger] order[k] < g.len()
    &&& forall|v: usize| v < g.len() ==> order.contains(v)
    &&& dependencies_first(g, order)
}

/// Whether every node listed in `order` comes after each node it depends on.
pub open spec fn dependencies_first(g: Seq<Vec<Dependency>>, order: Seq<usize>) -> bool {
    forall|p: int, j: int|
        0 <= p < order.len() && 0 <= j < g[order[p] as int]@.len() ==> order.take(p).contains(
            (#[trigger] g[order[p] as int]@[j]).node,
        )
}

/// Whether `cycle` is a cycle of the graph: each node depends, through a
/// dependency carrying the listed labels, on the next, and the last on the
/// first.
pub open spec fn is_cycle(g: Seq<Vec<Dependency>>, cycle: Seq<(usize, Vec<u64>)>) -> bool {
    &&& cycle.len() > 0
    &&& forall|k: int| 0 <= k < cycle.len() ==> {
        let a = (#[trigger] cycle[k]).0 as int;
        &&& 0 <= a < g.len()
        &&& exists|j: int|
            0 <= j < g[a]@.len() && g[a]@[j].node == cycle[next_in_cycle(k, cycle.len())].0
                && g[a]@[j].labels@ == cycle[k].1@
    }
}

/// The position after `k` in a cycle of length `len`, wrapping to the start.
pub open spec fn next_in_cycle(k: int, len: nat) -> int {
    if k + 1 < len {
        k + 1
    } else {
        0
    }
}

/// State of the depth-first search: visited nodes, finished nodes in order,
/// the path being explored and, for each node on it, the dependency being
/// followed.
pub struct DfsState {
    pub visited: Vec<bool>,
    pub sorted: Vec<usize>,
    pub current: Vec<usize>,
    pub current_edges: Vec<usize>,
}

pub open spec fn count_unvisited(s: Seq<bool>) -> nat
    decreases s.len(),
{
    if s.len() == 0 {
        0
    } else {
        count_unvisited(s.drop_last()) + if s.last() {
            0nat
        } else {
            1nat
        }
    }
}

proof fn lemma_count_monotone(a: Seq<bool>, b: Seq<bool>)
    requires
        a.len() == b.len(),
        forall|i: int| 0 <= i < a.len() && a[i] ==> b[i],
    ensures
        count_unvisited(b) <= count_unvisited(a),
    decreases a.len(),
{
    if a.len() > 0 {
        lemma_count_monotone(a.drop_last(), b.drop_last());
    }
}

proof fn lemma_count_mark(a: Seq<bool>, x: int)
    requires
        0 <= x < a.len(),
        !a[x],
    ensures
        count_unvisited(a.update(x, true)) < count_unvisited(a),
    decreases a.len(),
{
    let b = a.update(x, true);
    if x < a.len() - 1 {
        assert(b.drop_last() =~= a.drop_last().update(x, true));
        lemma_count_mark(a.drop_last(), x);
    } else {
        assert(b.drop_last() =~= a.drop_last());
    }
}

/// The invariant of the search.
pub open spec fn dfs_inv(g: Seq<Vec<Dependency>>, st: DfsState) -> bool {
    let n = g.len();
    &&& st.visited@.len() == n
    &&& st.sorted@.no_duplicates()
    &&& st.current@.no_duplicates()
    &&& forall|k: int| 0 <= k < st.sorted@.len() ==> #[trigger] st.sorted@[k] < n
    &&& forall|k: int| 0 <= k < st.current@.len() ==> #[trigger] st.current@[k] < n
    &&& forall|v: usize| #[trigger] st.sorted@.contains(v) ==> v < n && st.visited@[v as int] && !st.current@.contains(v)
    &&& forall|v: usize| #[trigger] st.current@.contains(v) ==> v < n && st.visited@[v as int]
    &&& forall|v: usize| v < n && #[trigger] st.visited@[v as int] ==> st.sorted@.contains(v) || st.current@.contains(v)
    &&& dependencies_first(g, st.sorted@)
    &&& st.current_edges@.len() == st.current@.len()
    &&& forall|k: int| 0 <= k < st.current@.len() - 1 ==> {
        let a = (#[trigger] st.current@[k]) as int;
        &&& st.current_edges@[k] < g[a]@.len()
        &&& g[a]@[st.current_edges@[k] as int].node == st.current@[k + 1]
    }
}

fn copy_labels(v: &Vec<u64>) -> (r: Vec<u64>)
    ensures
        r@ == v@,
{
    let mut r: Vec<u64> = Vec::new();
    for i in 0..v.len()
        invariant
            r@ == v@.take(i as int),
    {
        r.push(v[i]);
        proof {
            assert(v@.take(i + 1) =~= v@.take(i as int).push(v@[i as int]));
        }
    }
    proof {
        assert(v@.take(v@.len() as int) =~= v@);
    }
    r
}

fn position_of(s: &Vec<usize>, x: usize) -> (r: Option<usize>)
    ensures
        r matches Some(p) ==> p < s@.len() && s@[p as int] == x,
        r is None ==> !s@.contains(x),
{
    for k in 0..s.len()
        invariant
            forall|i: int| 0 <= i < k ==> s@[i] != x,
    {
        if s[k] == x {
            return Some(k);
        }
    }
    None
}

/// Visits `node` and, before it, everything it depends on; returns a cycle
/// if one is met.
fn visit(g: &Vec<Vec<Dependency>>, st: &mut DfsState, node: usize) -> (r: Option<Vec<(usize, Vec<u64>)>>)
    requires
        valid_graph(g@),
        dfs_inv(g@, *old(st)),
        node < g@.len(),
        old(st).current@.len() > 0 ==> ({
            let a = old(st).current@.last() as int;
            &&& old(st).current_edges@.last() < g@[a]@.len()
            &&& g@[a]@[old(st).current_edges@.last() as int].node == node
        }),
    ensures
        r matches Some(c) ==> is_cycle(g@, c@),
        r is None ==> {
            &&& dfs_inv(g@, *final(st))
            &&& final(st).current@ == old(st).current@
            &&& final(st).current_edges@ == old(st).current_edges@
            &&& final(st).sorted@.contains(node)
            &&& old(st).sorted@.is_prefix_of(final(st).sorted@)
            &&& forall|v: int| 0 <= v < g@.len() && old(st).visited@[v] ==> final(st).visited@[v]
        },
    decreases count_unvisited(old(st).visited@),
{
    if let Some(p) = position_of(&st.current, node) {
        let len = st.current.len();
        let mut cycle: Vec<(usize, Vec<u64>)> = Vec::new();
        for k in p..len
            invariant
                p < len,
                len == st.current@.len(),
                st.current@[p as int] == node,
                dfs_inv(g@, *st),
                st.current@.len() > 0 ==> ({
                    let a = st.current@.last() as int;
                    &&& st.current_edges@.last() < g@[a]@.len()
                    &&& g@[a]@[st.current_edges@.last() as int].node == node
                }),
                cycle@.len() == k - p,
                forall|i: int| 0 <= i < k - p ==> {
                    let a = st.current@[p + i] as int;
                    &&& (#[trigger] cycle@[i]).0 == st.current@[p + i]
                    &&& cycle@[i].1@ == g@[a]@[st.current_edges@[p + i] as int].labels@
                },
        {
            let a = st.current[k];
            let e = st.current_edges[k];
            assert(e < g@[a as int]@.len());
            let labels = copy_labels(&g[a][e].labels);
            cycle.push((a, labels));
        }
        proof {
            let c = cycle@;
            assert(c.len() == len - p);
            assert forall|k: int| 0 <= k < c.len() implies {
                let a = (#[trigger] c[k]).0 as int;
                &&& 0 <= a < g@.len()
                &&& exists|j: int|
                    0 <= j < g@[a]@.len() && g@[a]@[j].node == c[next_in_cycle(k, c.len())].0
                        && g@[a]@[j].labels@ == c[k].1@
            } by {
                let a = c[k].0 as int;
                let j = st.current_edges@[p + k] as int;
                assert(st.current@[p + k] < g@.len());
                if k < c.len() - 1 {
                    assert(c[k + 1].0 == st.current@[p + k + 1]);
                } else {
                    assert(c[0].0 == st.current@[p as int]);
                }
                assert(g@[a]@[j].node == c[next_in_cycle(k, c.len())].0);
            }
        }
        return Some(cycle);
    }
    if st.visited[node] {
        return None;
    }
    let ghost st0 = *st;
    proof {
        lemma_count_mark(st.visited@, node as int);
    }
    st.visited.set(node, true);
    st.current.push(node);
    st.current_edges.push(0);
    proof {
        let n = g@.len();
        assert(!st0.sorted@.contains(node));
        assert(!st0.current@.contains(node));
        assert forall|v: usize| #[trigger] st.sorted@.contains(v) implies v < n && st.visited@[v as int]
            && !st.current@.contains(v) by {
            assert(st0.sorted@.contains(v));
            if st.current@.contains(v) {
                let q = choose|q: int| 0 <= q < st.current@.len() && st.current@[q] == v;
                if q < st0.current@.len() {
                    assert(st0.current@[q] == v);
                }
            }
        }
        assert forall|v: usize| #[trigger] st.current@.contains(v) implies v < n && st.visited@[v as int] by {
            if v != node {
                let q = choose|q: int| 0 <= q < st.current@.len() && st.current@[q] == v;
                assert(st0.current@[q] == v);
            }
        }
        assert forall|v: usize| v < n && #[trigger] st.visited@[v as int] implies st.sorted@.contains(v)
            || st.current@.contains(v) by {
            if v != node {
                assert(st0.visited@[v as int]);
                if st0.current@.contains(v) {
                    let q = choose|q: int| 0 <= q < st0.current@.len() && st0.current@[q] == v;
                    assert(st.current@[q] == v);
                }
            } else {
                assert(st.current@[st.current@.len() - 1] == node);
            }
        }
        assert forall|k: int| 0 <= k < st.current@.len() - 1 implies {
            let a = (#[trigger] st.current@[k]) as int;
            &&& st.current_edges@[k] < g@[a]@.len()
            &&& g@[a]@[st.current_edges@[k] as int].node == st.current@[k + 1]
        } by {
            assert(st.current@[k] == st0.current@[k]);
            assert(st.current_edges@[k] == st0.current_edges@[k]);
        }
        assert(st.current@.no_duplicates());
        assert forall|k: int| 0 <= k < st.current@.len() implies #[trigger] st.current@[k] < n by {
            if k < st0.current@.len() {
                assert(st.current@[k] == st0.current@[k]);
            }
        }
    }
    let ghost sorted1 = st.sorted@;
    let m = g[node].len();
    let mut j: usize = 0;
    while j < m
        invariant
            valid_graph(g@),
            node < g@.len(),
            m == g@[node as int]@.len(),
            j <= m,
            dfs_inv(g@, *st),
            st.current@ == st0.current@.push(node),
            st.current_edges@.len() == st.current@.len(),
            st.current_edges@.drop_last() == st0.current_edges@,
            sorted1.is_prefix_of(st.sorted@),
            st0.sorted@ == sorted1,
            st.visited@[node as int],
            !st.sorted@.contains(node),
            st0.visited@.len() == g@.len(),
            st0.visited@ == old(st).visited@,
            forall|v: int| 0 <= v < g@.len() && st0.visited@[v] ==> st.visited@[v],
            count_unvisited(st.visited@) < count_unvisited(st0.visited@),
            forall|i: int| 0 <= i < j ==> st.sorted@.contains((#[trigger] g@[node as int]@[i]).node),
        decreases m - j,
    {
        let last = st.current_edges.len() - 1;
        st.current_edges.set(last, j);
        let d = g[node][j].node;
        proof {
            assert(g@[node as int]@[j as int].node < g@.len());
            assert(st.current@.last() == node);
            let ce = st.current_edges@;
            assert forall|k: int| 0 <= k < st.current@.len() - 1 implies ce[k] == st0.current_edges@[k] by {
                assert(ce[k] == ce.drop_last()[k]);
            }
            lemma_count_monotone(st0.visited@.update(node as int, true), st.visited@);
        }
        let ghost before = *st;
        let res = visit(g, st, d);
        if res.is_some() {
            return res;
        }
        proof {
            assert(before.sorted@.is_prefix_of(st.sorted@));
            assert forall|i: int| 0 <= i < j + 1 implies st.sorted@.contains((#[trigger] g@[node as int]@[i]).node) by {
                if i < j {
                    let x = g@[node as int]@[i].node;
                    assert(before.sorted@.contains(x));
                    let q = choose|q: int| 0 <= q < before.sorted@.len() && before.sorted@[q] == x;
                    assert(st.sorted@[q] == x);
                }
            }
            assert(!st.sorted@.contains(node)) by {
                assert(st.current@.contains(node));
            }
            lemma_count_monotone(before.visited@, st.visited@);
        }
        j = j + 1;
    }
    let ghost st2 = *st;
    st.sorted.push(node);
    st.current.pop();
    st.current_edges.pop();
    proof {
        assert(st.current@ =~= st0.current@);
        assert(st.current_edges@ =~= st0.current_edges@);
        assert(st.sorted@ == st2.sorted@.push(node));
        assert(sorted1.is_prefix_of(st.sorted@));
        let s = st.sorted@;
        assert forall|v: usize| #[trigger] s.contains(v) implies v < g@.len() && st.visited@[v as int]
            && !st.current@.contains(v) by {
            if v != node {
                assert(st2.sorted@.contains(v));
            } else {
                assert(!st0.current@.contains(node));
            }
        }
        assert forall|v: usize| #[trigger] st.current@.contains(v) implies v < g@.len() && st.visited@[v as int] by {
            assert(st2.current@.contains(v));
        }
        assert forall|v: usize| v < g@.len() && #[trigger] st.visited@[v as int] implies s.contains(v)
            || st.current@.contains(v) by {
            if v != node {
                if st2.sorted@.contains(v) {
                    let q = choose|q: int| 0 <= q < st2.sorted@.len() && st2.sorted@[q] == v;
                    assert(s[q] == v);
                } else {
                    assert(st2.current@.contains(v));
                    let q = choose|q: int| 0 <= q < st2.current@.len() && st2.current@[q] == v;
                    assert(st2.current@[st2.current@.len() - 1] == node);
                    assert(q != st2.current@.len() - 1);
                    assert(st.current@[q] == v);
                }
            } else {
                assert(s[s.len() - 1] == node);
            }
        }
        assert forall|p: int, jj: int|
            0 <= p < s.len() && 0 <= jj < g@[s[p] as int]@.len() implies s.take(p).contains(
            (#[trigger] g@[s[p] as int]@[jj]).node,
        ) by {
            if p < s.len() - 1 {
                assert(s[p] == st2.sorted@[p]);
                assert(s.take(p) =~= st2.sorted@.take(p));
                assert(dependencies_first(g@, st2.sorted@));
                let x = g@[st2.sorted@[p] as int]@[jj].node;
                assert(st2.sorted@.take(p).contains(x));
            } else {
                assert(s.take(p) =~= st2.sorted@);
                let x = g@[node as int]@[jj].node;
                assert(st2.sorted@.contains(x));
            }
        }
        assert(dependencies_first(g@, s));
        assert forall|k: int| 0 <= k < s.len() implies #[trigger] s[k] < g@.len() by {
            if k < s.len() - 1 {
                assert(s[k] == st2.sorted@[k]);
            }
        }
        assert(s.no_duplicates()) by {
            assert forall|a: int, b: int| 0 <= a < b < s.len() implies s[a] != s[b] by {
                if b == s.len() - 1 {
                    assert(st2.sorted@.contains(s[a]));
                }
            }
        }
        assert forall|k: int| 0 <= k < st.current@.len() - 1 implies {
            let a = (#[trigger] st.current@[k]) as int;
            &&& st.current_edges@[k] < g@[a]@.len()
            &&& g@[a]@[st.current_edges@[k] as int].node == st.current@[k + 1]
        } by {
            assert(st.current@[k] == st2.current@[k]);
            assert(st.current_edges@[k] == st2.current_edges@[k]);
            assert(st.current@[k + 1] == st2.current@[k + 1]);
        }
        assert(s.contains(node)) by {
            assert(s[s.len() - 1] == node);
        }
    }
    None
}

/// Orders the nodes of a dependency graph so that every node comes after the
/// nodes it depends on, by depth-first search; when the graph has a cycle,
/// returns one instead.
pub fn topological_order(g: &Vec<Vec<Dependency>>) -> (r: Result<Vec<usize>, DependencyGraphError>)
    requires
        valid_graph(g@),
    ensures
        r matches Ok(order) ==> is_topological_order(g@, order@),
        r matches Err(DependencyGraphError::GraphCycles(c)) ==> is_cycle(g@, c@),
        (forall|c: Seq<(usize, Vec<u64>)>| !is_cycle(g@, c)) ==> r is Ok,
{
    let n = g.len();
    let mut visited: Vec<bool> = Vec::new();
    for i in 0..n
        invariant
            visited@.len() == i,
            forall|k: int| 0 <= k < i ==> !visited@[k],
    {
        visited.push(false);
    }
    let mut st = DfsState { visited, sorted: Vec::new(), current: Vec::new(), current_edges: Vec::new() };
    let mut u: usize = 0;
    while u < n
        invariant
            n == g@.len(),
            u <= n,
            valid_graph(g@),
            dfs_inv(g@, st),
            st.current@.len() == 0,
            forall|v: int| 0 <= v < u ==> st.visited@[v],
        decreases n - u,
    {
        let ghost before = st;
        let res = visit(g, &mut st, u);
        match res {
            Some(c) => {
                return Err(DependencyGraphError::GraphCycles(c));
            },
            None => {},
        }
        proof {
            assert forall|v: int| 0 <= v < u + 1 implies st.visited@[v] by {
                if v < u {
                    assert(before.visited@[v]);
                } else {
                    assert(st.sorted@.contains(u));
                }
            }
        }
        u = u + 1;
    }
    proof {
        assert forall|v: usize| v < g@.len() implies st.sorted@.contains(v) by {
            assert(st.visited@[v as int]);
            assert(!st.current@.contains(v));
        }
    }
    Ok(st.sorted)
}


// ---------------------------------------------------------------------------
// Building the graph from the nodes' labels.
// ---------------------------------------------------------------------------

#[verifier::external_type_specification]
#[verifier::external_body]
pub struct ExFixedBitSet(FixedBitSet);

/// The bits that are set in a `FixedBitSet`.
pub uninterp spec fn fixedbitset_contents(b: FixedBitSet) -> Set<usize>;

/// The number of bits a `FixedBitSet` was made with.
pub uninterp spec fn fixedbitset_len(b: FixedBitSet) -> nat;

/// Calls `FixedBitSet::with_capacity`, which makes a set of `bits` bits,
/// none of them set.
#[verifier::external_body]
fn bitset_with_capacity(bits: usize) -> (r: FixedBitSet)
    ensures
        fixedbitset_contents(r) == Set::<usize>::empty(),
        fixedbitset_len(r) == bits,
{
    FixedBitSet::with_capacity(bits)
}

/// Calls `FixedBitSet::insert`, which sets one bit below the length the set
/// was made with (it panics on a bit at or past it) and keeps the length.
#[verifier::external_body]
fn bitset_insert(b: &mut FixedBitSet, bit: usize)
    requires
        bit < fixedbitset_len(*old(b)),
    ensures
        fixedbitset_contents(*final(b)) == fixedbitset_contents(*old(b)).insert(bit),
        fixedbitset_len(*final(b)) == fixedbitset_len(*old(b)),
{
    b.insert(bit)
}

/// Calls `FixedBitSet::ones`, which yields the set bits in ascending order,
/// and collects them.
#[verifier::external_body]
fn bitset_ones(b: &FixedBitSet) -> (r: Vec<usize>)
    ensures
        forall|i: int, j: int| 0 <= i < j < r@.len() ==> r@[i] < r@[j],
        forall|x: usize| r@.contains(x) <==> fixedbitset_contents(*b).contains(x),
{
    b.ones().collect()
}

/// A node of a schedule: the labels it carries and the labels it must run
/// before or after.
pub trait GraphNode {
    spec fn label_seq(&self) -> Seq<u64>;

    spec fn before_seq(&self) -> Seq<u64>;

    spec fn after_seq(&self) -> Seq<u64>;

    fn name(&self) -> String;

    fn labels(&self) -> (r: &[u64])
        ensures
            r@ == self.label_seq(),
    ;

    fn before(&self) -> (r: &[u64])
        ensures
            r@ == self.before_seq(),
    ;

    fn after(&self) -> (r: &[u64])
        ensures
            r@ == self.after_seq(),
    ;
}

/// A node described by plain lists of labels.
pub struct LabelledNode {
    pub name: String,
    pub labels: Vec<u64>,
    pub before: Vec<u64>,
    pub after: Vec<u64>,
}

impl GraphNode for LabelledNode {
    open spec fn label_seq(&self) -> Seq<u64> {
        self.labels@
    }

    open spec fn before_seq(&self) -> Seq<u64> {
        self.before@
    }

    open spec fn after_seq(&self) -> Seq<u64> {
        self.after@
    }

    fn name(&self) -> (r: String)
        ensures
            r@ == self.name@,
    {
        self.name.clone()
    }

    fn labels(&self) -> (r: &[u64]) {
        self.labels.as_slice()
    }

    fn before(&self) -> (r: &[u64]) {
        self.before.as_slice()
    }

    fn after(&self) -> (r: &[u64]) {
        self.after.as_slice()
    }
}

/// Node `a` depends on node `b` through label `l`: `a` runs after `l` and
/// `b` carries it, or `b` runs before `l` and `a` carries it.
pub open spec fn edge_label<N: GraphNode>(nodes: Seq<N>, a: int, b: int, l: u64) -> bool {
    ||| nodes[a].after_seq().contains(l) && nodes[b].label_seq().contains(l)
    ||| nodes[b].before_seq().contains(l) && nodes[a].label_seq().contains(l)
}

/// Whether the dependencies `row` hold one on `b` that carries label `l`.
pub open spec fn has_label(row: Seq<Dependency>, b: usize, l: u64) -> bool {
    exists|k: int| 0 <= k < row.len() && row[k].node == b && #[trigger] row[k].labels@.contains(l)
}

/// Dependencies of one node: on nodes below `n`, each node once, each with
/// at least one label and no label twice.
pub open spec fn row_wf(row: Seq<Dependency>, n: nat) -> bool {
    &&& forall|k: int|
        0 <= k < row.len() ==> (#[trigger] row[k]).node < n && row[k].labels@.len() > 0
            && row[k].labels@.no_duplicates()
    &&& forall|k1: int, k2: int| 0 <= k1 < k2 < row.len() ==> (#[trigger] row[k1]).node != (#[trigger] row[k2]).node
}

pub open spec fn graph_wf(g: Seq<Vec<Dependency>>, n: nat) -> bool {
    &&& g.len() == n
    &&& forall|a: int| 0 <= a < n ==> row_wf(#[trigger] g[a]@, n)
}

fn find_u64(s: &Vec<u64>, x: u64) -> (r: Option<usize>)
    ensures
        r matches Some(p) ==> p < s@.len() && s@[p as int] == x,
        r is None ==> !s@.contains(x),
{
    for k in 0..s.len()
        invariant
            forall|i: int| 0 <= i < k ==> s@[i] != x,
    {
        if s[k] == x {
            return Some(k);
        }
    }
    None
}

/// Records that the dependency on `node` carries `label`.
fn add_label(row: &mut Vec<Dependency>, node: usize, label: u64, n: usize)
    requires
        row_wf(old(row)@, n as nat),
        node < n,
    ensures
        row_wf(final(row)@, n as nat),
        forall|b: usize, l: u64| #[trigger] has_label(final(row)@, b, l) <==> has_label(old(row)@, b, l) || (b == node && l == label),
{
    let mut k: usize = 0;
    while k < row.len()
        invariant
            k <= row@.len(),
            row_wf(row@, n as nat),
            row@ == old(row)@,
            forall|i: int| 0 <= i < k ==> row@[i].node != node,
        decreases row@.len() - k,
    {
        if row[k].node == node {
            if find_u64(&row[k].labels, label).is_none() {
                let mut dep = row.remove(k);
                dep.labels.push(label);
                row.insert(k, dep);
                proof {
                    let o = old(row)@;
                    let r = row@;
                    assert forall|b: usize, l: u64| #[trigger] has_label(r, b, l) <==> has_label(o, b, l) || (b == node && l == label) by {
                        if has_label(o, b, l) {
                            let i = choose|i: int| 0 <= i < o.len() && o[i].node == b && #[trigger] o[i].labels@.contains(l);
                            if i == k {
                                assert(r[i].labels@ == o[i].labels@.push(label));
                                assert(r[i].labels@.contains(l));
                            } else {
                                assert(r[i] == o[i]);
                            }
                        }
                        if b == node && l == label {
                            assert(r[k as int].labels@[r[k as int].labels@.len() - 1] == label);
                            assert(r[k as int].labels@.contains(l));
                        }
                        if has_label(r, b, l) {
                            let i = choose|i: int| 0 <= i < r.len() && r[i].node == b && #[trigger] r[i].labels@.contains(l);
                            if i != k {
                                assert(r[i] == o[i]);
                            } else if l != label {
                                let q = choose|q: int| 0 <= q < r[i].labels@.len() && r[i].labels@[q] == l;
                                assert(o[i].labels@[q] == l);
                                assert(o[i].labels@.contains(l));
                            }
                        }
                    }
                    assert forall|i: int| 0 <= i < r.len() implies (#[trigger] r[i]).node < n && r[i].labels@.len() > 0
                        && r[i].labels@.no_duplicates() by {
                        if i != k {
                            assert(r[i] == o[i]);
                        }
                    }
                    assert forall|k1: int, k2: int| 0 <= k1 < k2 < r.len() implies (#[trigger] r[k1]).node != (#[trigger] r[k2]).node by {
                        assert(r[k1].node == o[k1].node);
                        assert(r[k2].node == o[k2].node);
                    }
                }
            } else {
                proof {
                    let o = row@;
                    assert forall|b: usize, l: u64| #[trigger] has_label(o, b, l) <==> has_label(o, b, l) || (b == node && l == label) by {
                        if b == node && l == label {
                            assert(o[k as int].labels@.contains(l));
                        }
                    }
                }
            }
            return;
        }
        k = k + 1;
    }
    let mut labels: Vec<u64> = Vec::new();
    labels.push(label);
    row.push(Dependency { node, labels });
    proof {
        let o = old(row)@;
        let r = row@;
        assert(r == o.push(r[r.len() - 1]));
        assert forall|b: usize, l: u64| #[trigger] has_label(r, b, l) <==> has_label(o, b, l) || (b == node && l == label) by {
            if has_label(o, b, l) {
                let i = choose|i: int| 0 <= i < o.len() && o[i].node == b && #[trigger] o[i].labels@.contains(l);
                assert(r[i] == o[i]);
            }
            if b == node && l == label {
                assert(r[o.len() as int].labels@[0] == label);
                assert(r[o.len() as int].labels@.contains(l));
            }
            if has_label(r, b, l) {
                let i = choose|i: int| 0 <= i < r.len() && r[i].node == b && #[trigger] r[i].labels@.contains(l);
                if i < o.len() {
                    assert(r[i] == o[i]);
                } else {
                    let q = choose|q: int| 0 <= q < r[i].labels@.len() && r[i].labels@[q] == l;
                    assert(r[i].labels@.len() == 1);
                }
            }
        }
        assert forall|k1: int, k2: int| 0 <= k1 < k2 < r.len() implies (#[trigger] r[k1]).node != (#[trigger] r[k2]).node by {
            if k2 < o.len() {
                assert(r[k1] == o[k1]);
                assert(r[k2] == o[k2]);
            } else {
                assert(r[k1] == o[k1]);
            }
        }
        assert forall|i: int| 0 <= i < r.len() implies (#[trigger] r[i]).node < n && r[i].labels@.len() > 0
            && r[i].labels@.no_duplicates() by {
            if i < o.len() {
                assert(r[i] == o[i]);
            }
        }
    }
}

/// Makes node `a` depend on each of `targets` through `label`.
fn add_dependencies_of(graph: &mut Vec<Vec<Dependency>>, a: usize, targets: &Vec<usize>, label: u64, n: usize)
    requires
        graph_wf(old(graph)@, n as nat),
        a < n,
        forall|t: int| 0 <= t < targets@.len() ==> #[trigger] targets@[t] < n,
    ensures
        graph_wf(final(graph)@, n as nat),
        forall|x: int, b: usize, l: u64|
            0 <= x < n ==> (#[trigger] has_label(final(graph)@[x]@, b, l) <==> has_label(old(graph)@[x]@, b, l)
                || (x == a && l == label && targets@.contains(b))),
{
    let mut t: usize = 0;
    while t < targets.len()
        invariant
            t <= targets@.len(),
            a < n,
            forall|t: int| 0 <= t < targets@.len() ==> #[trigger] targets@[t] < n,
            graph_wf(graph@, n as nat),
            forall|x: int, b: usize, l: u64|
                0 <= x < n ==> (#[trigger] has_label(graph@[x]@, b, l) <==> has_label(old(graph)@[x]@, b, l)
                    || (x == a && l == label && targets@.take(t as int).contains(b))),
        decreases targets@.len() - t,
    {
        let ghost g0 = graph@;
        add_label(&mut graph[a], targets[t], label, n);
        proof {
            let g = graph@;
            assert forall|x: int| 0 <= x < n implies row_wf(#[trigger] g[x]@, n as nat) by {
                if x != a {
                    assert(g[x] == g0[x]);
                }
            }
            assert(targets@.take(t + 1) =~= targets@.take(t as int).push(targets@[t as int]));
            assert forall|x: int, b: usize, l: u64| 0 <= x < n implies (#[trigger] has_label(g[x]@, b, l) <==> has_label(old(graph)@[x]@, b, l)
                || (x == a && l == label && targets@.take(t + 1).contains(b))) by {
                if x != a {
                    assert(g[x] == g0[x]);
                    assert(has_label(g0[x]@, b, l) == has_label(g[x]@, b, l));
                } else {
                    assert(has_label(g0[x]@, b, l) == has_label(g0[x]@, b, l));
                }
            }
        }
        t = t + 1;
    }
    proof {
        assert(targets@.take(targets@.len() as int) =~= targets@);
    }
}

/// Makes each of `sources` depend on node `b` through `label`.
fn add_dependents_of(graph: &mut Vec<Vec<Dependency>>, b: usize, sources: &Vec<usize>, label: u64, n: usize)
    requires
        graph_wf(old(graph)@, n as nat),
        b < n,
        forall|t: int| 0 <= t < sources@.len() ==> #[trigger] sources@[t] < n,
    ensures
        graph_wf(final(graph)@, n as nat),
        forall|x: int, y: usize, l: u64|
            0 <= x < n ==> (#[trigger] has_label(final(graph)@[x]@, y, l) <==> has_label(old(graph)@[x]@, y, l)
                || (y == b && l == label && sources@.contains(x as usize))),
{
    let mut t: usize = 0;
    while t < sources.len()
        invariant
            t <= sources@.len(),
            b < n,
            forall|t: int| 0 <= t < sources@.len() ==> #[trigger] sources@[t] < n,
            graph_wf(graph@, n as nat),
            forall|x: int, y: usize, l: u64|
                0 <= x < n ==> (#[trigger] has_label(graph@[x]@, y, l) <==> has_label(old(graph)@[x]@, y, l)
                    || (y == b && l == label && sources@.take(t as int).contains(x as usize))),
        decreases sources@.len() - t,
    {
        let ghost g0 = graph@;
        let a = sources[t];
        add_label(&mut graph[a], b, label, n);
        proof {
            let g = graph@;
            assert forall|x: int| 0 <= x < n implies row_wf(#[trigger] g[x]@, n as nat) by {
                if x != a {
                    assert(g[x] == g0[x]);
                }
            }
            assert(sources@.take(t + 1) =~= sources@.take(t as int).push(a));
            assert forall|x: int, y: usize, l: u64| 0 <= x < n implies (#[trigger] has_label(g[x]@, y, l) <==> has_label(old(graph)@[x]@, y, l)
                || (y == b && l == label && sources@.take(t + 1).contains(x as usize))) by {
                if x != a {
                    assert(g[x] == g0[x]);
                    assert(has_label(g0[x]@, y, l) == has_label(g[x]@, y, l));
                    if sources@.take(t + 1).contains(x as usize) {
                        let st = sources@.take(t + 1);
                        let q = choose|q: int| 0 <= q < st.len() && #[trigger] st[q] == x as usize;
                        assert(q != t);
                        assert(sources@.take(t as int)[q] == x as usize);
                    }
                } else {
                    assert(has_label(g0[x]@, y, l) == has_label(g0[x]@, y, l));
                }
            }
        }
        t = t + 1;
    }
    proof {
        assert(sources@.take(sources@.len() as int) =~= sources@);
    }
}

/// Whether node `x` carries label `l`, counting the nodes before `index`
/// and the first `j` labels of node `index`.
pub open spec fn labelled_upto<N: GraphNode>(nodes: Seq<N>, index: int, j: int, x: int, l: u64) -> bool {
    ||| 0 <= x < index && nodes[x].label_seq().contains(l)
    ||| x == index && nodes[index].label_seq().take(j).contains(l)
}

/// The label index: each label met so far, once, with the set of nodes
/// that carry it.
pub open spec fn label_index_inv<N: GraphNode>(
    nodes: Seq<N>,
    index: int,
    j: int,
    keys: Seq<u64>,
    sets: Seq<FixedBitSet>,
) -> bool {
    &&& keys.len() == sets.len()
    &&& keys.no_duplicates()
    &&& forall|p: int| 0 <= p < sets.len() ==> fixedbitset_len(#[trigger] sets[p]) == nodes.len()
    &&& forall|p: int, x: usize|
        0 <= p < sets.len() ==> (#[trigger] fixedbitset_contents(sets[p]).contains(x) <==> labelled_upto(
            nodes,
            index,
            j,
            x as int,
            keys[p],
        ))
    &&& forall|x: int, l: u64| #[trigger] labelled_upto(nodes, index, j, x, l) ==> keys.contains(l)
}

/// Dependencies put by the `after` labels of the nodes before `index` and
/// by the `before` labels of the nodes before `index`.
pub open spec fn edges_upto<N: GraphNode>(nodes: Seq<N>, index: int, a: int, b: int, l: u64) -> bool {
    ||| 0 <= a < index && nodes[a].after_seq().contains(l) && nodes[b].label_seq().contains(l)
    ||| 0 <= b < index && nodes[b].before_seq().contains(l) && nodes[a].label_seq().contains(l)
}

proof fn lemma_labelled_step<N: GraphNode>(nodes: Seq<N>, index: int, j: int)
    requires
        0 <= index < nodes.len(),
        0 <= j < nodes[index].label_seq().len(),
    ensures
        forall|x: int, l: u64|
            #[trigger] labelled_upto(nodes, index, j + 1, x, l) <==> labelled_upto(nodes, index, j, x, l) || (x
                == index && l == nodes[index].label_seq()[j]),
{
    let ls = nodes[index].label_seq();
    assert(ls.take(j + 1) =~= ls.take(j).push(ls[j]));
}

proof fn lemma_labelled_next_node<N: GraphNode>(nodes: Seq<N>, index: int)
    requires
        0 <= index < nodes.len(),
    ensures
        forall|x: int, l: u64|
            #[trigger] labelled_upto(nodes, index + 1, 0, x, l) <==> labelled_upto(
                nodes,
                index,
                nodes[index].label_seq().len() as int,
                x,
                l,
            ),
{
    let ls = nodes[index].label_seq();
    assert(ls.take(ls.len() as int) =~= ls);
    assert forall|x: int, l: u64| #[trigger] labelled_upto(nodes, index + 1, 0, x, l) <==> labelled_upto(
        nodes,
        index,
        ls.len() as int,
        x,
        l,
    ) by {
        assert(nodes[index + 1].label_seq().take(0).len() == 0);
    }
}

/// Builds, for each label carried by some node, the set of nodes carrying it.
fn index_labels<N: GraphNode>(nodes: &[N]) -> (r: (Vec<u64>, Vec<FixedBitSet>))
    ensures
        label_index_inv(nodes@, nodes@.len() as int, 0, r.0@, r.1@),
{
    let n = nodes.len();
    let mut keys: Vec<u64> = Vec::new();
    let mut sets: Vec<FixedBitSet> = Vec::new();
    let mut index: usize = 0;
    while index < n
        invariant
            n == nodes@.len(),
            index <= n,
            label_index_inv(nodes@, index as int, 0, keys@, sets@),
        decreases n - index,
    {
        let labels = nodes[index].labels();
        let mut j: usize = 0;
        while j < labels.len()
            invariant
                n == nodes@.len(),
                index < n,
                labels@ == nodes@[index as int].label_seq(),
                j <= labels@.len(),
                label_index_inv(nodes@, index as int, j as int, keys@, sets@),
            decreases labels@.len() - j,
        {
            let label = labels[j];
            proof {
                lemma_labelled_step(nodes@, index as int, j as int);
            }
            let ghost k0 = keys@;
            let ghost s0 = sets@;
            match find_u64(&keys, label) {
                Some(p) => {
                    bitset_insert(&mut sets[p], index);
                    proof {
                        let s1 = sets@;
                        assert forall|q: int| 0 <= q < s1.len() implies fixedbitset_len(#[trigger] s1[q]) == n by {
                            if q != p {
                                assert(s1[q] == s0[q]);
                            }
                        }
                        assert forall|q: int, x: usize| 0 <= q < s1.len() implies (
                        #[trigger] fixedbitset_contents(s1[q]).contains(x) <==> labelled_upto(
                            nodes@,
                            index as int,
                            j + 1,
                            x as int,
                            keys@[q],
                        )) by {
                            if q != p {
                                assert(s1[q] == s0[q]);
                                assert(keys@[q] != label);
                            }
                        }
                        assert forall|x: int, l: u64| #[trigger] labelled_upto(nodes@, index as int, j + 1, x, l) implies keys@.contains(l) by {
                            if !labelled_upto(nodes@, index as int, j as int, x, l) {
                                assert(keys@[p as int] == l);
                            }
                        }
                    }
                },
                None => {
                    let mut b = bitset_with_capacity(n);
                    bitset_insert(&mut b, index);
                    keys.push(label);
                    sets.push(b);
                    proof {
                        let s1 = sets@;
                        let k1 = keys@;
                        assert forall|q: int| 0 <= q < s1.len() implies fixedbitset_len(#[trigger] s1[q]) == n by {
                            if q < s0.len() {
                                assert(s1[q] == s0[q]);
                            }
                        }
                        assert forall|q: int, x: usize| 0 <= q < s1.len() implies (
                        #[trigger] fixedbitset_contents(s1[q]).contains(x) <==> labelled_upto(
                            nodes@,
                            index as int,
                            j + 1,
                            x as int,
                            k1[q],
                        )) by {
                            if q < s0.len() {
                                assert(s1[q] == s0[q]);
                                assert(k1[q] == k0[q]);
                                assert(k0[q] != label);
                            } else {
                                assert(k1[q] == label);
                                assert(!labelled_upto(nodes@, index as int, j as int, x as int, label));
                            }
                        }
                        assert forall|x: int, l: u64| #[trigger] labelled_upto(nodes@, index as int, j + 1, x, l) implies k1.contains(l) by {
                            if labelled_upto(nodes@, index as int, j as int, x, l) {
                                let q = choose|q: int| 0 <= q < k0.len() && k0[q] == l;
                                assert(k1[q] == l);
                            } else {
                                assert(k1[k1.len() - 1] == l);
                            }
                        }
                        assert(k1.no_duplicates()) by {
                            assert forall|a: int, c: int| 0 <= a < c < k1.len() implies k1[a] != k1[c] by {
                                if c == k1.len() - 1 {
                                    assert(k0.contains(k1[a]));
                                }
                            }
                        }
                    }
                },
            }
            j = j + 1;
        }
        proof {
            lemma_labelled_next_node(nodes@, index as int);
        }
        index = index + 1;
    }
    (keys, sets)
}

/// The nodes that carry `label`, from the label index.
fn nodes_with_label<N: GraphNode>(
    nodes: &[N],
    keys: &Vec<u64>,
    sets: &Vec<FixedBitSet>,
    label: u64,
) -> (r: Vec<usize>)
    requires
        label_index_inv(nodes@, nodes@.len() as int, 0, keys@, sets@),
    ensures
        forall|t: int| 0 <= t < r@.len() ==> #[trigger] r@[t] < nodes@.len(),
        forall|y: usize| #[trigger] r@.contains(y) <==> y < nodes@.len() && nodes@[y as int].label_seq().contains(label),
{
    match find_u64(keys, label) {
        Some(p) => {
            let ones = bitset_ones(&sets[p]);
            proof {
                assert forall|t: int| 0 <= t < ones@.len() implies #[trigger] ones@[t] < nodes@.len() by {
                    assert(ones@.contains(ones@[t]));
                    assert(fixedbitset_contents(sets@[p as int]).contains(ones@[t]));
                }
                assert forall|y: usize| #[trigger] ones@.contains(y) <==> y < nodes@.len()
                    && nodes@[y as int].label_seq().contains(label) by {
                    assert(fixedbitset_contents(sets@[p as int]).contains(y) <==> labelled_upto(
                        nodes@,
                        nodes@.len() as int,
                        0,
                        y as int,
                        label,
                    ));
                }
            }
            ones
        },
        None => {
            proof {
                assert forall|y: usize| y < nodes@.len() implies !nodes@[y as int].label_seq().contains(label) by {
                    if nodes@[y as int].label_seq().contains(label) {
                        assert(labelled_upto(nodes@, nodes@.len() as int, 0, y as int, label));
                    }
                }
            }
            Vec::new()
        },
    }
}

/// Builds the dependency graph of `nodes`: entry `a` lists the nodes that
/// node `a` depends on, each with the labels that put the dependency there.
/// Node `a` depends on node `b` through label `l` when `a` runs after `l`
/// and `b` carries it, or when `b` runs before `l` and `a` carries it. A
/// label that no node carries puts no dependency.
pub fn build_dependency_graph<N: GraphNode>(nodes: &[N]) -> (r: Vec<Vec<Dependency>>)
    ensures
        graph_wf(r@, nodes@.len()),
        valid_graph(r@),
        forall|a: int, b: usize, l: u64|
            0 <= a < nodes@.len() ==> (#[trigger] has_label(r@[a]@, b, l) <==> b < nodes@.len() && edge_label(
                nodes@,
                a,
                b as int,
                l,
            )),
{
    let n = nodes.len();
    let (keys, sets) = index_labels(nodes);
    let mut graph: Vec<Vec<Dependency>> = Vec::new();
    let mut i: usize = 0;
    while i < n
        invariant
            i <= n,
            graph@.len() == i,
            forall|a: int| 0 <= a < i ==> (#[trigger] graph@[a])@.len() == 0,
        decreases n - i,
    {
        graph.push(Vec::new());
        i = i + 1;
    }
    let mut index: usize = 0;
    while index < n
        invariant
            n == nodes@.len(),
            index <= n,
            label_index_inv(nodes@, n as int, 0, keys@, sets@),
            graph_wf(graph@, n as nat),
            forall|x: int, b: usize, l: u64|
                0 <= x < n ==> (#[trigger] has_label(graph@[x]@, b, l) <==> b < n && edges_upto(
                    nodes@,
                    index as int,
                    x,
                    b as int,
                    l,
                )),
        decreases n - index,
    {
        let after = nodes[index].after();
        let mut j: usize = 0;
        while j < after.len()
            invariant
                n == nodes@.len(),
                index < n,
                after@ == nodes@[index as int].after_seq(),
                j <= after@.len(),
                label_index_inv(nodes@, n as int, 0, keys@, sets@),
                graph_wf(graph@, n as nat),
                forall|x: int, b: usize, l: u64|
                    0 <= x < n ==> (#[trigger] has_label(graph@[x]@, b, l) <==> b < n && (edges_upto(
                        nodes@,
                        index as int,
                        x,
                        b as int,
                        l,
                    ) || (x == index && after@.take(j as int).contains(l) && nodes@[b as int].label_seq().contains(l)))),
            decreases after@.len() - j,
        {
            let label = after[j];
            let targets = nodes_with_label(nodes, &keys, &sets, label);
            let ghost g0 = graph@;
            add_dependencies_of(&mut graph, index, &targets, label, n);
            proof {
                assert(after@.take(j + 1) =~= after@.take(j as int).push(label));
                assert forall|x: int, b: usize, l: u64| 0 <= x < n implies (#[trigger] has_label(graph@[x]@, b, l) <==> b < n
                    && (edges_upto(nodes@, index as int, x, b as int, l) || (x == index && after@.take(j + 1).contains(l)
                    && nodes@[b as int].label_seq().contains(l)))) by {
                    assert(has_label(g0[x]@, b, l) <==> b < n && (edges_upto(nodes@, index as int, x, b as int, l) || (x
                        == index && after@.take(j as int).contains(l) && nodes@[b as int].label_seq().contains(l))));
                    if targets@.contains(b) {
                        assert(b < n);
                    }
                }
            }
            j = j + 1;
        }
        proof {
            assert(after@.take(after@.len() as int) =~= after@);
        }
        let before = nodes[index].before();
        let mut j: usize = 0;
        while j < before.len()
            invariant
                n == nodes@.len(),
                index < n,
                before@ == nodes@[index as int].before_seq(),
                j <= before@.len(),
                label_index_inv(nodes@, n as int, 0, keys@, sets@),
                graph_wf(graph@, n as nat),
                forall|x: int, b: usize, l: u64|
                    0 <= x < n ==> (#[trigger] has_label(graph@[x]@, b, l) <==> b < n && (edges_upto(
                        nodes@,
                        index as int,
                        x,
                        b as int,
                        l,
                    ) || (x == index && nodes@[index as int].after_seq().contains(l) && nodes@[b as int].label_seq().contains(
                        l,
                    )) || (b == index && before@.take(j as int).contains(l) && nodes@[x].label_seq().contains(l)))),
            decreases before@.len() - j,
        {
            let label = before[j];
            let sources = nodes_with_label(nodes, &keys, &sets, label);
            let ghost g0 = graph@;
            add_dependents_of(&mut graph, index, &sources, label, n);
            proof {
                assert(before@.take(j + 1) =~= before@.take(j as int).push(label));
                assert forall|x: int, b: usize, l: u64| 0 <= x < n implies (#[trigger] has_label(graph@[x]@, b, l) <==> b < n
                    && (edges_upto(nodes@, index as int, x, b as int, l) || (x == index
                    && nodes@[index as int].after_seq().contains(l) && nodes@[b as int].label_seq().contains(l)) || (b
                    == index && before@.take(j + 1).contains(l) && nodes@[x].label_seq().contains(l)))) by {
                    assert(has_label(g0[x]@, b, l) <==> b < n && (edges_upto(nodes@, index as int, x, b as int, l) || (x
                        == index && nodes@[index as int].after_seq().contains(l) && nodes@[b as int].label_seq().contains(
                        l,
                    )) || (b == index && before@.take(j as int).contains(l) && nodes@[x].label_seq().contains(l))));
                    assert(sources@.contains(x as usize) <==> nodes@[x].label_seq().contains(label));
                }
            }
            j = j + 1;
        }
        proof {
            assert(before@.take(before@.len() as int) =~= before@);
            assert forall|x: int, b: usize, l: u64| 0 <= x < n implies (#[trigger] has_label(graph@[x]@, b, l) <==> b < n
                && edges_upto(nodes@, index + 1, x, b as int, l)) by {
            }
        }
        index = index + 1;
    }
    proof {
        assert forall|a: int, b: usize, l: u64| 0 <= a < n implies (#[trigger] has_label(graph@[a]@, b, l) <==> b < n
            && edge_label(nodes@, a, b as int, l)) by {
            assert(has_label(graph@[a]@, b, l) <==> b < n && edges_upto(nodes@, n as int, a, b as int, l));
        }
        assert forall|i: int, j: int| 0 <= i < graph@.len() && 0 <= j < graph@[i]@.len() implies (
        #[trigger] graph@[i]@[j]).node < graph@.len() by {
            assert(row_wf(graph@[i]@, n as nat));
        }
    }
    graph
}

/// In a topological order of the graph built from `nodes`, every node comes
/// after each node it must run after: when `a` runs after a label that `b`
/// carries, or `b` runs before a label that `a` carries, `b` is listed
/// before `a`.
pub proof fn lemma_schedule_respects_labels<N: GraphNode>(
    nodes: Seq<N>,
    g: Seq<Vec<Dependency>>,
    order: Seq<usize>,
    a: usize,
    b: usize,
    l: u64,
)
    requires
        graph_wf(g, nodes.len()),
        forall|x: int, y: usize, m: u64|
            0 <= x < nodes.len() ==> (#[trigger] has_label(g[x]@, y, m) <==> y < nodes.len() && edge_label(
                nodes,
                x,
                y as int,
                m,
            )),
        is_topological_order(g, order),
        a < nodes.len(),
        b < nodes.len(),
        edge_label(nodes, a as int, b as int, l),
    ensures
        exists|p: int, q: int| 0 <= q < p < order.len() && order[p] == a && order[q] == b,
{
    assert(has_label(g[a as int]@, b, l));
    let k = choose|k: int| 0 <= k < g[a as int]@.len() && g[a as int]@[k].node == b && #[trigger] g[a as int]@[k].labels@.contains(l);
    assert(order.contains(a));
    let p = choose|p: int| 0 <= p < order.len() && order[p] == a;
    assert(dependencies_first(g, order));
    let dep = g[order[p] as int]@[k].node;
    assert(order.take(p).contains(dep));
    let q = choose|q: int| 0 <= q < order.take(p).len() && order.take(p)[q] == dep;
    assert(order[q] == b);
}

} // verus!
