use vstd::prelude::*;
use crate::text::{decimal, push_char};

verus! {

/// An undirected graph on the cities `0..n`, by adjacency lists.
pub struct Graph {
    adj_list: Vec<Vec<usize>>,
}

/// The batches of cities, one graph per batch.
pub struct District(pub Vec<Graph>);

pub open spec fn adj_wf(adj: Seq<Seq<usize>>) -> bool {
    forall|i: int, j: int| 0 <= i < adj.len() && 0 <= j < adj[i].len() ==> #[trigger] adj[i][j] < adj.len()
}

pub open spec fn edge(adj: Seq<Seq<usize>>, a: int, b: int) -> bool {
    0 <= a < adj.len() && exists|j: int| 0 <= j < adj[a].len() && adj[a][j] == b
}

/// A walk along edges.
pub open spec fn is_path(adj: Seq<Seq<usize>>, p: Seq<int>) -> bool {
    &&& p.len() >= 1
    &&& forall|k: int| 0 <= k < p.len() ==> 0 <= #[trigger] p[k] < adj.len()
    &&& forall|k: int| 0 <= k < p.len() - 1 ==> edge(adj, #[trigger] p[k], p[k + 1])
}

pub open spec fn reachable(adj: Seq<Seq<usize>>, a: int, b: int) -> bool {
    exists|p: Seq<int>| is_path(adj, p) && p[0] == a && #[trigger] p.last() == b
}

/// No lower-numbered city reaches `v`: `v` is the first city of its component.
pub open spec fn is_leader(adj: Seq<Seq<usize>>, v: int) -> bool {
    forall|j: int| 0 <= j < v ==> !#[trigger] reachable(adj, j, v)
}

/// Number of component leaders among the cities `0..i`.
pub open spec fn leaders(adj: Seq<Seq<usize>>, i: int) -> nat
    decreases i,
{
    if i <= 0 {
        0
    } else {
        leaders(adj, i - 1) + if is_leader(adj, i - 1) { 1nat } else { 0nat }
    }
}

/// Number of connected components: in an undirected graph each has exactly one leader.
pub open spec fn components(adj: Seq<Seq<usize>>) -> nat {
    leaders(adj, adj.len() as int)
}

pub open spec fn count_unvisited(s: Seq<bool>) -> nat
    decreases s.len(),
{
    if s.len() == 0 {
        0
    } else {
        count_unvisited(s.drop_last()) + if s.last() { 0nat } else { 1nat }
    }
}

proof fn lemma_visit_one(s: Seq<bool>, i: int)
    requires
        0 <= i < s.len(),
        !s[i],
    ensures
        count_unvisited(s.update(i, true)) + 1 == count_unvisited(s),
    decreases s.len(),
{
    let t = s.update(i, true);
    if i < s.len() - 1 {
        lemma_visit_one(s.drop_last(), i);
        assert(t.drop_last() =~= s.drop_last().update(i, true));
    } else {
        assert(t.drop_last() =~= s.drop_last());
    }
}

proof fn lemma_reach_self(adj: Seq<Seq<usize>>, a: int)
    requires
        0 <= a < adj.len(),
    ensures
        reachable(adj, a, a),
{
    let p = seq![a];
    assert(is_path(adj, p));
    assert(p.last() == a);
}

proof fn lemma_reach_step(adj: Seq<Seq<usize>>, a: int, v: int, w: int)
    requires
        reachable(adj, a, v),
        edge(adj, v, w),
        0 <= w < adj.len(),
    ensures
        reachable(adj, a, w),
{
    let p = choose|p: Seq<int>| is_path(adj, p) && p[0] == a && #[trigger] p.last() == v;
    let q = p.push(w);
    assert forall|k: int| 0 <= k < q.len() - 1 implies edge(adj, #[trigger] q[k], q[k + 1]) by {
        if k < p.len() - 1 {
            assert(q[k] == p[k] && q[k + 1] == p[k + 1]);
        }
    }
    assert(q.last() == w);
}

/// A set closed under edges that holds `a` holds everything `a` reaches.
proof fn lemma_closed_holds_reach(adj: Seq<Seq<usize>>, vis: Seq<bool>, a: int, b: int)
    requires
        vis.len() == adj.len(),
        0 <= a < adj.len(),
        vis[a],
        forall|v: int, w: int| 0 <= v < adj.len() && vis[v] && #[trigger] edge(adj, v, w) ==> vis[w],
        reachable(adj, a, b),
    ensures
        vis[b],
{
    let p = choose|p: Seq<int>| is_path(adj, p) && p[0] == a && #[trigger] p.last() == b;
    lemma_closed_holds_path(adj, vis, p, p.len() - 1);
}

proof fn lemma_closed_holds_path(adj: Seq<Seq<usize>>, vis: Seq<bool>, p: Seq<int>, k: int)
    requires
        vis.len() == adj.len(),
        is_path(adj, p),
        vis[p[0]],
        forall|v: int, w: int| 0 <= v < adj.len() && vis[v] && #[trigger] edge(adj, v, w) ==> vis[w],
        0 <= k < p.len(),
    ensures
        vis[p[k]],
    decreases k,
{
    if k > 0 {
        lemma_closed_holds_path(adj, vis, p, k - 1);
        assert(edge(adj, p[k - 1], p[k]));
    }
}

impl View for Graph {
    type V = Seq<Seq<usize>>;

    closed spec fn view(&self) -> Seq<Seq<usize>> {
        self.adj_list@.map_values(|row: Vec<usize>| row@)
    }
}

impl Graph {
    /// Every neighbour named is a city of the graph.
    #[verifier::type_invariant]
    spec fn neighbours_in_range(&self) -> bool {
        adj_wf(self@)
    }

    /// A graph of `n` cities and no roads.
    pub fn new(n: usize) -> (r: Graph)
        ensures
            r@.len() == n,
            forall|i: int| 0 <= i < n ==> (#[trigger] r@[i]).len() == 0,
            adj_wf(r@),
    {
        let mut adj_list: Vec<Vec<usize>> = Vec::new();
        let mut i: usize = 0;
        while i < n
            invariant
                i <= n,
                adj_list@.len() == i,
                forall|k: int| 0 <= k < i ==> (#[trigger] adj_list@[k])@.len() == 0,
            decreases n - i,
        {
            adj_list.push(Vec::new());
            i = i + 1;
        }
        let r = Graph { adj_list };
        assert forall|k: int| 0 <= k < n implies (#[trigger] r@[k]).len() == 0 by {
            assert(r@[k] == r.adj_list@[k]@);
        }
        r
    }

    pub fn len(&self) -> (r: usize)
        ensures
            r == self@.len(),
            adj_wf(self@),
    {
        proof {
            use_type_invariant(self);
        }
        self.adj_list.len()
    }

    /// The same graph with a road between `a` and `b`, usable both ways.
    pub fn add_edge(self, a: usize, b: usize) -> (r: Graph)
        requires
            a < self@.len(),
            b < self@.len(),
        ensures
            r@ == self@.update(a as int, self@[a as int].push(b)).update(
                b as int,
                self@.update(a as int, self@[a as int].push(b))[b as int].push(a),
            ),
    {
        proof {
            use_type_invariant(&self);
        }
        let ghost before = self@;
        let Graph { adj_list } = self;
        let adj_list = push_neighbor(adj_list, a, b);
        let adj_list = push_neighbor(adj_list, b, a);
        proof {
            let mid = before.update(a as int, before[a as int].push(b));
            let v = adj_list@.map_values(|row: Vec<usize>| row@);
            assert(v =~= mid.update(b as int, mid[b as int].push(a)));
            assert forall|i: int, j: int| 0 <= i < v.len() && 0 <= j < v[i].len() implies #[trigger] v[i][j] < v.len() by {
                if i == b && j == mid[i].len() {
                } else if i == a && j == before[i].len() {
                    assert(v[i][j] == mid[i][j]);
                } else {
                    assert(v[i][j] == before[i][j]);
                }
            }
        }
        Graph { adj_list }
    }
}

fn push_neighbor(adj_list: Vec<Vec<usize>>, a: usize, b: usize) -> (r: Vec<Vec<usize>>)
    requires
        a < adj_list@.len(),
    ensures
        r@.len() == adj_list@.len(),
        r@.map_values(|row: Vec<usize>| row@) == adj_list@.map_values(|row: Vec<usize>| row@).update(
            a as int,
            adj_list@[a as int]@.push(b),
        ),
{
    let mut adj_list = adj_list;
    let ghost before = adj_list@.map_values(|row: Vec<usize>| row@);
    let mut row = adj_list[a].clone();
    row.push(b);
    adj_list.set(a, row);
    assert(adj_list@.map_values(|row: Vec<usize>| row@) =~= before.update(a as int, before[a as int].push(b)));
    adj_list
}

fn visit_from(graph: &Graph, start: usize, visited: &mut Vec<bool>)
    requires
        adj_wf(graph@),
        old(visited)@.len() == graph@.len(),
        start < graph@.len(),
        forall|v: int, w: int| 0 <= v < graph@.len() && old(visited)@[v] && #[trigger] edge(graph@, v, w) ==> old(visited)@[w],
    ensures
        final(visited)@.len() == graph@.len(),
        forall|v: int| 0 <= v < graph@.len() ==> (#[trigger] final(visited)@[v] <==> (old(visited)@[v] || reachable(graph@, start as int, v))),
        forall|v: int, w: int| 0 <= v < graph@.len() && final(visited)@[v] && #[trigger] edge(graph@, v, w) ==> final(visited)@[w],
{
    let ghost adj = graph@;
    let ghost before = visited@;
    let mut stack: Vec<usize> = Vec::new();
    stack.push(start);
    proof {
        lemma_reach_self(adj, start as int);
        assert(stack@[0] == start);
    }
    while stack.len() > 0
        invariant
            adj == graph@,
            adj_wf(adj),
            start < adj.len(),
            visited@.len() == adj.len(),
            before.len() == adj.len(),
            forall|k: int| 0 <= k < stack@.len() ==> (#[trigger] stack@[k]) < adj.len(),
            forall|k: int| 0 <= k < stack@.len() ==> reachable(adj, start as int, #[trigger] stack@[k] as int),
            forall|v: int| 0 <= v < adj.len() && before[v] ==> #[trigger] visited@[v],
            forall|v: int| 0 <= v < adj.len() && #[trigger] visited@[v] && !before[v] ==> reachable(adj, start as int, v),
            visited@[start as int] || (exists|k: int| 0 <= k < stack@.len() && stack@[k] == start),
            forall|v: int, w: int| 0 <= v < adj.len() && visited@[v] && #[trigger] edge(adj, v, w) ==>
                visited@[w] || exists|k: int| 0 <= k < stack@.len() && stack@[k] == w,
        decreases count_unvisited(visited@), stack@.len(),
    {
        let ghost pre = stack@;
        let city = stack.pop().unwrap();
        let ghost base = stack@;
        proof {
            assert(pre =~= base.push(city));
            assert forall|v: int, w: int| 0 <= v < adj.len() && visited@[v] && #[trigger] edge(adj, v, w) implies
                visited@[w] || w == city || exists|k: int| 0 <= k < base.len() && base[k] == w by {
                if !visited@[w] {
                    let k = choose|k: int| 0 <= k < pre.len() && pre[k] == w;
                    if k < base.len() {
                        assert(base[k] == w);
                    }
                }
            }
            if !visited@[start as int] {
                let k = choose|k: int| 0 <= k < pre.len() && pre[k] == start;
                if k < base.len() {
                    assert(base[k] == start);
                }
            }
            assert(reachable(adj, start as int, pre[pre.len() - 1] as int));
        }
        if !visited[city] {
            proof {
                lemma_visit_one(visited@, city as int);
            }
            visited.set(city, true);
            let row = &graph.adj_list[city];
            assert(row@ == adj[city as int]);
            let mut j: usize = 0;
            while j < row.len()
                invariant
                    adj == graph@,
                    adj_wf(adj),
                    row@ == adj[city as int],
                    city < adj.len(),
                    j <= row@.len(),
                    reachable(adj, start as int, city as int),
                    stack@.len() == base.len() + j,
                    forall|k: int| 0 <= k < base.len() ==> stack@[k] == base[k],
                    forall|k: int| 0 <= k < j ==> stack@[base.len() + k] == row@[k],
                    forall|k: int| 0 <= k < stack@.len() ==> (#[trigger] stack@[k]) < adj.len(),
                    forall|k: int| 0 <= k < stack@.len() ==> reachable(adj, start as int, #[trigger] stack@[k] as int),
                decreases row@.len() - j,
            {
                let w = row[j];
                proof {
                    assert(adj[city as int][j as int] < adj.len());
                    assert(edge(adj, city as int, w as int));
                    lemma_reach_step(adj, start as int, city as int, w as int);
                }
                stack.push(w);
                j = j + 1;
            }
            proof {
                assert forall|v: int, w: int| 0 <= v < adj.len() && visited@[v] && #[trigger] edge(adj, v, w) implies
                    visited@[w] || exists|k: int| 0 <= k < stack@.len() && stack@[k] == w by {
                    if v == city {
                        let jj = choose|jj: int| 0 <= jj < adj[v].len() && adj[v][jj] == w;
                        assert(stack@[base.len() + jj] == w);
                    } else if !visited@[w] {
                        let k = choose|k: int| 0 <= k < base.len() && base[k] == w;
                        assert(stack@[k] == w);
                    }
                }
                if !visited@[start as int] {
                    let k = choose|k: int| 0 <= k < base.len() && base[k] == start;
                    assert(stack@[k] == start);
                }
            }
        }
    }
    proof {
        assert forall|v: int| 0 <= v < adj.len() implies (#[trigger] visited@[v] <==> (before[v] || reachable(adj, start as int, v))) by {
            if reachable(adj, start as int, v) {
                lemma_closed_holds_reach(adj, visited@, start as int, v);
            }
        }
    }
}

/// Number of connected components of an undirected graph.
pub fn count_connected_components(graph: &Graph) -> (r: usize)
    ensures
        r == components(graph@),
{
    proof {
        use_type_invariant(graph);
    }
    let n = graph.len();
    let mut visited: Vec<bool> = Vec::new();
    let mut i: usize = 0;
    while i < n
        invariant
            i <= n == graph@.len(),
            visited@.len() == i,
            forall|k: int| 0 <= k < i ==> !visited@[k],
        decreases n - i,
    {
        visited.push(false);
        i = i + 1;
    }
    let mut components: usize = 0;
    let mut i: usize = 0;
    while i < n
        invariant
            i <= n == graph@.len(),
            adj_wf(graph@),
            visited@.len() == n,
            components == leaders(graph@, i as int),
            components <= i,
            forall|v: int| 0 <= v < n ==> (#[trigger] visited@[v] <==> exists|j: int| 0 <= j < i && reachable(graph@, j, v)),
            forall|v: int, w: int| 0 <= v < n && visited@[v] && #[trigger] edge(graph@, v, w) ==> visited@[w],
        decreases n - i,
    {
        if !visited[i] {
            proof {
                assert forall|j: int| 0 <= j < i implies !#[trigger] reachable(graph@, j, i as int) by {
                    if reachable(graph@, j, i as int) {
                        assert(visited@[i as int]);
                    }
                }
            }
            visit_from(graph, i, &mut visited);
            components = components + 1;
            proof {
                assert forall|v: int| 0 <= v < n implies (#[trigger] visited@[v] <==> exists|j: int| 0 <= j < i + 1 && reachable(graph@, j, v)) by {
                    if reachable(graph@, i as int, v) {
                        assert(exists|j: int| 0 <= j < i + 1 && reachable(graph@, j, v));
                    }
                }
            }
        } else {
            proof {
                let j = choose|j: int| 0 <= j < i && reachable(graph@, j, i as int);
                assert(!is_leader(graph@, i as int));
                assert forall|v: int| 0 <= v < n implies (#[trigger] visited@[v] <==> exists|j: int| 0 <= j < i + 1 && reachable(graph@, j, v)) by {
                    if reachable(graph@, i as int, v) {
                        lemma_closed_holds_reach(graph@, visited@, i as int, v);
                    }
                }
            }
        }
        i = i + 1;
    }
    components
}

/// The component counts of the batches, in order.
pub open spec fn province_counts(graphs: Seq<Seq<Seq<usize>>>) -> Seq<nat> {
    graphs.map_values(|g: Seq<Seq<usize>>| components(g))
}

/// Counts joined by commas.
pub open spec fn joined(counts: Seq<nat>) -> Seq<char>
    decreases counts.len(),
{
    if counts.len() == 0 {
        seq![]
    } else if counts.len() == 1 {
        decimal(counts[0])
    } else {
        joined(counts.drop_last()) + seq![','] + decimal(counts.last())
    }
}

impl District {
    pub open spec fn graphs(&self) -> Seq<Seq<Seq<usize>>> {
        self.0@.map_values(|g: Graph| g@)
    }
}

/// The number of provinces (connected groups of cities) of each batch, joined by commas.
pub fn count_provinces(district: &District) -> (r: String)
    ensures
        r@ == joined(province_counts(district.graphs())),
{
    let graphs = &district.0;
    let mut out = String::new();
    let mut i: usize = 0;
    while i < graphs.len()
        invariant
            i <= graphs@.len(),
            graphs == &district.0,
            out@ == joined(province_counts(district.graphs()).subrange(0, i as int)),
        decreases graphs@.len() - i,
    {
        let count = count_connected_components(&graphs[i]);
        let ghost counts = province_counts(district.graphs());
        if i > 0 {
            push_char(&mut out, ',');
        }
        proof {
            assert(count as int <= usize::MAX);
        }
        push_count(&mut out, count);
        proof {
            let next = counts.subrange(0, i + 1);
            assert(next.drop_last() =~= counts.subrange(0, i as int));
            assert(next.last() == count);
            assert(out@ =~= joined(next));
        }
        i = i + 1;
    }
    assert(province_counts(district.graphs()).subrange(0, i as int) =~= province_counts(district.graphs()));
    out
}

/// Appends the decimal digits of a count.
fn push_count(s: &mut String, n: usize)
    ensures
        final(s)@ == old(s)@ + decimal(n as nat),
    decreases n,
{
    if n >= 10 {
        push_count(s, n / 10);
    }
    let c = ((n % 10) as u8 + 48) as char;
    push_char(s, c);
    assert(s@ =~= old(s)@ + decimal(n as nat));
}

} // verus!
