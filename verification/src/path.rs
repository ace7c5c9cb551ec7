use vstd::prelude::*;

use crate::graph::{
    Graph, edge_stats, edge_weight, find_dest, find_key, find_origin, graph_wf, has_edge,
    lemma_edge_stats_wf, lemma_find_key_at, lemma_find_key_none, lemma_find_key_props,
    origin_keys, dest_keys, total_edges, MAX_ROWS,
};

verus! {

/// A valid route through the graph: at least one node, starting at `s`,
/// ending at `t`, with every consecutive pair joined by a recorded edge.
/// A single-node route `[s]` needs no edges at all.
pub open spec fn valid_path(g: Graph, p: Seq<Seq<char>>, s: Seq<char>, t: Seq<char>) -> bool {
    &&& p.len() >= 1
    &&& p[0] == s
    &&& p.last() == t
    &&& forall|i: int| 0 <= i < p.len() - 1 ==> #[trigger] has_edge(g, p[i], p[i + 1])
}

/// Total cost of a route: the sum of the average durations of its edges.
pub open spec fn path_cost(g: Graph, p: Seq<Seq<char>>) -> int
    decreases p.len(),
{
    if p.len() <= 1 {
        0
    } else {
        path_cost(g, p.drop_last()) + edge_weight(g, p[p.len() - 2], p.last())
    }
}

proof fn lemma_path_cost_nonneg(g: Graph, p: Seq<Seq<char>>)
    ensures
        path_cost(g, p) >= 0,
    decreases p.len(),
{
    if p.len() > 1 {
        lemma_path_cost_nonneg(g, p.drop_last());
    }
}

proof fn lemma_path_cost_push(g: Graph, p: Seq<Seq<char>>, v: Seq<char>)
    requires
        p.len() >= 1,
    ensures
        path_cost(g, p.push(v)) == path_cost(g, p) + edge_weight(g, p.last(), v),
{
    assert(p.push(v).drop_last() =~= p);
    assert(p.push(v).last() == v);
    assert(p.push(v)[p.push(v).len() - 2] == p.last());
}

proof fn lemma_valid_path_push(g: Graph, p: Seq<Seq<char>>, s: Seq<char>, v: Seq<char>)
    requires
        valid_path(g, p, s, p.last()),
        has_edge(g, p.last(), v),
    ensures
        valid_path(g, p.push(v), s, v),
{
    let q = p.push(v);
    assert forall|i: int| 0 <= i < q.len() - 1 implies #[trigger] has_edge(g, q[i], q[i + 1]) by {
        if i < p.len() - 1 {
            assert(q[i] == p[i] && q[i + 1] == p[i + 1]);
            assert(has_edge(g, p[i], p[i + 1]));
        } else {
            assert(q[i] == p.last() && q[i + 1] == v);
        }
    }
}

proof fn lemma_valid_path_prefix(g: Graph, p: Seq<Seq<char>>, s: Seq<char>)
    requires
        valid_path(g, p, s, p.last()),
        p.len() >= 2,
    ensures
        valid_path(g, p.drop_last(), s, p.drop_last().last()),
        p == p.drop_last().push(p.last()),
{
    let q = p.drop_last();
    assert forall|i: int| 0 <= i < q.len() - 1 implies #[trigger] has_edge(g, q[i], q[i + 1]) by {
        assert(q[i] == p[i] && q[i + 1] == p[i + 1]);
        assert(has_edge(g, p[i], p[i + 1]));
    }
    assert(p =~= p.drop_last().push(p.last()));
}

/// The character views of a list of node names.
pub open spec fn name_keys(ns: Seq<String>) -> Seq<Seq<char>> {
    ns.map_values(|s: String| s@)
}

fn contains_name(names: &Vec<String>, s: &String) -> (b: bool)
    ensures
        b == (find_key(name_keys(names@), s@) >= 0),
{
    let mut i: usize = 0;
    while i < names.len()
        invariant
            i <= names@.len(),
            forall|j: int| 0 <= j < i ==> name_keys(names@)[j] != s@,
        decreases names@.len() - i,
    {
        if names[i] == *s {
            proof {
                lemma_find_key_at(name_keys(names@), s@, i as int);
            }
            return true;
        }
        i = i + 1;
    }
    proof {
        lemma_find_key_none(name_keys(names@), s@);
    }
    false
}

fn find_name_idx(names: &Vec<String>, s: &String) -> (r: Option<usize>)
    ensures
        match r {
            Some(i) => 0 <= i < names@.len() && i == find_key(name_keys(names@), s@),
            None => find_key(name_keys(names@), s@) == -1,
        },
{
    let mut i: usize = 0;
    while i < names.len()
        invariant
            i <= names@.len(),
            forall|j: int| 0 <= j < i ==> name_keys(names@)[j] != s@,
        decreases names@.len() - i,
    {
        if names[i] == *s {
            proof {
                lemma_find_key_at(name_keys(names@), s@, i as int);
            }
            return Some(i);
        }
        i = i + 1;
    }
    proof {
        lemma_find_key_none(name_keys(names@), s@);
    }
    None
}

proof fn lemma_name_push(ns: Seq<String>, s: String)
    ensures
        forall|v: Seq<char>|
            find_key(name_keys(ns), v) >= 0 ==> #[trigger] find_key(name_keys(ns.push(s)), v)
                == find_key(name_keys(ns), v),
        find_key(name_keys(ns.push(s)), s@) >= 0,
        name_keys(ns.push(s)) == name_keys(ns).push(s@),
{
    assert(name_keys(ns.push(s)) =~= name_keys(ns).push(s@));
    assert forall|v: Seq<char>| find_key(name_keys(ns), v) >= 0 implies #[trigger] find_key(
        name_keys(ns.push(s)),
        v,
    ) == find_key(name_keys(ns), v) by {
        crate::graph::lemma_find_key_push(name_keys(ns), s@, v);
    }
    crate::graph::lemma_find_key_push(name_keys(ns), s@, s@);
    lemma_find_key_props(name_keys(ns), s@);
}

proof fn lemma_total_edges_take_step(es: Seq<crate::graph::OriginEntry>, i: int)
    requires
        0 <= i < es.len(),
    ensures
        total_edges(es.take(i + 1)) == total_edges(es.take(i)) + es[i].edges@.len(),
{
    assert(es.take(i + 1).drop_last() =~= es.take(i));
    assert(es.take(i + 1).last() == es[i]);
}

proof fn lemma_total_edges_lower(es: Seq<crate::graph::OriginEntry>)
    requires
        forall|i: int| 0 <= i < es.len() ==> (#[trigger] es[i].edges@.len()) >= 1,
    ensures
        total_edges(es) >= es.len(),
    decreases es.len(),
{
    if es.len() > 0 {
        assert forall|i: int|
            0 <= i < es.drop_last().len() implies (#[trigger] es.drop_last()[i].edges@.len())
            >= 1 by {
            assert(es.drop_last()[i] == es[i]);
        }
        lemma_total_edges_lower(es.drop_last());
    }
}

/// Gathers the start node and every node that the graph mentions, without
/// duplicates, with the start first.
fn collect_names(graph: &Graph, start: &String) -> (names: Vec<String>)
    requires
        graph_wf(*graph),
    ensures
        names@.len() >= 1,
        name_keys(names@)[0] == start@,
        forall|i: int, j: int|
            0 <= i < j < names@.len() ==> name_keys(names@)[i] != name_keys(names@)[j],
        forall|o: Seq<char>, d: Seq<char>|
            #[trigger] has_edge(*graph, o, d) ==> find_key(name_keys(names@), o) >= 0 && find_key(
                name_keys(names@),
                d,
            ) >= 0,
        names@.len() <= 1 + 2 * MAX_ROWS,
{
    let mut names: Vec<String> = Vec::new();
    names.push(start.clone());
    let mut i: usize = 0;
    while i < graph.entries.len()
        invariant
            graph_wf(*graph),
            i <= graph.entries@.len(),
            names@.len() >= 1,
            name_keys(names@)[0] == start@,
            forall|x: int, y: int|
                0 <= x < y < names@.len() ==> name_keys(names@)[x] != name_keys(names@)[y],
            forall|x: int|
                0 <= x < i ==> find_key(
                    name_keys(names@),
                    (#[trigger] graph.entries@[x]).origin@,
                ) >= 0,
            forall|x: int, a: int|
                0 <= x < i && 0 <= a < graph.entries@[x].edges@.len() ==> find_key(
                    name_keys(names@),
                    (#[trigger] graph.entries@[x].edges@[a]).dest@,
                ) >= 0,
            names@.len() <= 1 + i + total_edges(graph.entries@.take(i as int)),
        decreases graph.entries@.len() - i,
    {
        proof {
            assert(graph.entries@.take(graph.entries@.len() as int) =~= graph.entries@);
        }
        if !contains_name(&names, &graph.entries[i].origin) {
            proof {
                lemma_name_push(names@, graph.entries@[i as int].origin);
                lemma_find_key_props(name_keys(names@), graph.entries@[i as int].origin@);
            }
            names.push(graph.entries[i].origin.clone());
        }
        let mut a: usize = 0;
        while a < graph.entries[i].edges.len()
            invariant
                graph_wf(*graph),
                i < graph.entries@.len(),
                a <= graph.entries@[i as int].edges@.len(),
                names@.len() >= 1,
                name_keys(names@)[0] == start@,
                forall|x: int, y: int|
                    0 <= x < y < names@.len() ==> name_keys(names@)[x] != name_keys(names@)[y],
                forall|x: int|
                    0 <= x < i ==> find_key(
                        name_keys(names@),
                        (#[trigger] graph.entries@[x]).origin@,
                    ) >= 0,
                find_key(name_keys(names@), graph.entries@[i as int].origin@) >= 0,
                forall|x: int, b: int|
                    0 <= x < i && 0 <= b < graph.entries@[x].edges@.len() ==> find_key(
                        name_keys(names@),
                        (#[trigger] graph.entries@[x].edges@[b]).dest@,
                    ) >= 0,
                forall|b: int|
                    0 <= b < a ==> find_key(
                        name_keys(names@),
                        (#[trigger] graph.entries@[i as int].edges@[b]).dest@,
                    ) >= 0,
                names@.len() <= 1 + i + 1 + total_edges(graph.entries@.take(i as int)) + a,
            decreases graph.entries@[i as int].edges@.len() - a,
        {
            if !contains_name(&names, &graph.entries[i].edges[a].dest) {
                proof {
                    lemma_name_push(names@, graph.entries@[i as int].edges@[a as int].dest);
                    lemma_find_key_props(
                        name_keys(names@),
                        graph.entries@[i as int].edges@[a as int].dest@,
                    );
                }
                names.push(graph.entries[i].edges[a].dest.clone());
            }
            a = a + 1;
        }
        proof {
            lemma_total_edges_take_step(graph.entries@, i as int);
        }
        i = i + 1;
    }
    proof {
        assert(graph.entries@.take(graph.entries@.len() as int) =~= graph.entries@);
        assert(names@.len() <= 1 + graph.entries@.len() + total_edges(graph.entries@));
        lemma_total_edges_lower(graph.entries@);
        assert forall|o: Seq<char>, d: Seq<char>| #[trigger] has_edge(*graph, o, d) implies
            find_key(name_keys(names@), o) >= 0 && find_key(name_keys(names@), d) >= 0 by {
            let es = graph.entries@;
            lemma_find_key_props(origin_keys(es), o);
            let fo = find_origin(es, o);
            assert(es[fo].origin@ == o);
            lemma_find_key_props(dest_keys(es[fo].edges@), d);
            let fd = find_dest(es[fo].edges@, d);
            assert(es[fo].edges@[fd].dest@ == d);
        }
    }
    names
}

/// Builds a vector of `len` copies of `v`.
fn fill_vec<T: Copy>(len: usize, v: T) -> (r: Vec<T>)
    ensures
        r@.len() == len,
        forall|i: int| 0 <= i < len ==> r@[i] == v,
{
    let mut r: Vec<T> = Vec::new();
    let mut i: usize = 0;
    while i < len
        invariant
            i <= len,
            r@.len() == i,
            forall|j: int| 0 <= j < i ==> r@[j] == v,
        decreases len - i,
    {
        r.push(v);
        i = i + 1;
    }
    r
}

spec fn count_true(s: Seq<bool>) -> int
    decreases s.len(),
{
    if s.len() == 0 {
        0
    } else {
        count_true(s.drop_last()) + if s.last() {
            1int
        } else {
            0int
        }
    }
}

proof fn lemma_count_true_le(s: Seq<bool>)
    ensures
        0 <= count_true(s) <= s.len(),
    decreases s.len(),
{
    if s.len() > 0 {
        lemma_count_true_le(s.drop_last());
    }
}

proof fn lemma_count_true_update(s: Seq<bool>, i: int)
    requires
        0 <= i < s.len(),
        !s[i],
    ensures
        count_true(s.update(i, true)) == count_true(s) + 1,
        count_true(s) < s.len(),
    decreases s.len(),
{
    let s2 = s.update(i, true);
    lemma_count_true_le(s.drop_last());
    if i == s.len() - 1 {
        assert(s2.drop_last() =~= s.drop_last());
        assert(s2.last());
        assert(!s.last());
    } else {
        assert(s2.drop_last() =~= s.drop_last().update(i, true));
        assert(s2.last() == s.last());
        lemma_count_true_update(s.drop_last(), i);
    }
}

/// Core state of the search: every settled (`done`) node's tentative cost
/// is a lower bound on the cost of every route to it, names are unique and
/// cover the graph, and the start sits at index 0 with cost 0.
spec fn search_inv(
    g: Graph,
    names: Seq<String>,
    dist: Seq<u64>,
    reached: Seq<bool>,
    done: Seq<bool>,
    start: Seq<char>,
) -> bool {
    let nk = name_keys(names);
    let nn = names.len() as int;
    &&& graph_wf(g)
    &&& dist.len() == nn
    &&& reached.len() == nn
    &&& done.len() == nn
    &&& nn >= 1
    &&& nk[0] == start
    &&& forall|i: int, j: int| 0 <= i < j < nn ==> nk[i] != nk[j]
    &&& forall|o: Seq<char>, d: Seq<char>|
        #[trigger] has_edge(g, o, d) ==> find_key(nk, o) >= 0 && find_key(nk, d) >= 0
    &&& forall|i: int| 0 <= i < nn && #[trigger] done[i] ==> reached[i]
    &&& reached[0]
    &&& dist[0] == 0
    &&& forall|i: int, q: Seq<Seq<char>>|
        0 <= i < nn && done[i] && #[trigger] valid_path(g, q, start, nk[i]) ==> path_cost(g, q)
            >= dist[i]
}

/// Every edge leaving a settled node has been relaxed: its head carries a
/// tentative cost no worse than through that edge.
spec fn relaxed_inv(
    g: Graph,
    names: Seq<String>,
    dist: Seq<u64>,
    reached: Seq<bool>,
    done: Seq<bool>,
) -> bool {
    let nk = name_keys(names);
    let nn = names.len() as int;
    forall|i: int, dd: Seq<char>|
        0 <= i < nn && done[i] && #[trigger] has_edge(g, nk[i], dd) ==> {
            let j = find_key(nk, dd);
            reached[j] && dist[j] <= dist[i] + edge_weight(g, nk[i], dd)
        }
}

/// Every reached node carries a witness route from the start with exactly
/// its tentative cost, recorded through predecessor links.
spec fn tree_inv(
    g: Graph,
    names: Seq<String>,
    dist: Seq<u64>,
    reached: Seq<bool>,
    done: Seq<bool>,
    prev: Seq<usize>,
    gpaths: Seq<Seq<Seq<char>>>,
    start: Seq<char>,
) -> bool {
    let nk = name_keys(names);
    let nn = names.len() as int;
    &&& prev.len() == nn
    &&& gpaths.len() == nn
    &&& gpaths[0] == seq![start]
    &&& forall|i: int|
        0 <= i < nn && #[trigger] reached[i] ==> valid_path(g, gpaths[i], start, nk[i])
            && path_cost(g, gpaths[i]) == dist[i]
    &&& forall|i: int|
        0 < i < nn && #[trigger] reached[i] ==> prev[i] < nn && done[prev[i] as int] && gpaths[i]
            == gpaths[prev[i] as int].push(nk[i])
}

/// For any route from the start to a node that is not yet settled, some
/// reached and unsettled node already carries a tentative cost no greater
/// than the route's cost. This is the exchange argument at the heart of
/// the search: a cheapest crossing of the settled frontier has been
/// recorded by relaxation.
proof fn lemma_frontier(
    g: Graph,
    names: Seq<String>,
    dist: Seq<u64>,
    reached: Seq<bool>,
    done: Seq<bool>,
    start: Seq<char>,
    q: Seq<Seq<char>>,
)
    requires
        search_inv(g, names, dist, reached, done, start),
        relaxed_inv(g, names, dist, reached, done),
        valid_path(g, q, start, q.last()),
        find_key(name_keys(names), q.last()) >= 0,
        !done[find_key(name_keys(names), q.last())],
    ensures
        exists|j: int|
            0 <= j < names.len() && reached[j] && !done[j] && dist[j] <= path_cost(g, q),
    decreases q.len(),
{
    let nk = name_keys(names);
    lemma_path_cost_nonneg(g, q);
    if q.len() == 1 {
        lemma_find_key_at(nk, start, 0);
        assert(q.last() == start);
        assert(find_key(nk, q.last()) == 0);
        assert(0 <= 0 < names.len() && reached[0] && !done[0] && dist[0] <= path_cost(g, q));
    } else {
        lemma_valid_path_prefix(g, q, start);
        let qq = q.drop_last();
        let u = qq.last();
        let t = q.last();
        assert(has_edge(g, q[q.len() - 2], q[q.len() - 2 + 1]));
        assert(has_edge(g, u, t));
        let iu = find_key(nk, u);
        assert(iu >= 0);
        lemma_find_key_props(nk, u);
        assert(nk[iu] == u);
        lemma_path_cost_push(g, qq, t);
        let jt = find_key(nk, t);
        if done[iu] {
            assert(valid_path(g, qq, start, nk[iu]));
            assert(path_cost(g, qq) >= dist[iu]);
            assert(has_edge(g, nk[iu], t));
            assert(reached[jt] && dist[jt] <= dist[iu] + edge_weight(g, nk[iu], t));
            assert(path_cost(g, q) == path_cost(g, qq) + edge_weight(g, u, t));
            assert(jt < names.len()) by {
                lemma_find_key_props(nk, t);
            }
            assert(dist[jt] <= path_cost(g, q));
            assert(0 <= jt < names.len() && reached[jt] && !done[jt] && dist[jt] <= path_cost(
                g,
                q,
            ));
        } else {
            lemma_frontier(g, names, dist, reached, done, start, qq);
            let j = choose|j: int|
                0 <= j < names.len() && reached[j] && !done[j] && dist[j] <= path_cost(g, qq);
            assert(0 <= j < names.len() && reached[j] && !done[j] && dist[j] <= path_cost(g, q));
        }
    }
}

proof fn lemma_count_true_all_false(s: Seq<bool>)
    requires
        forall|i: int| 0 <= i < s.len() ==> !s[i],
    ensures
        count_true(s) == 0,
    decreases s.len(),
{
    if s.len() > 0 {
        assert(forall|i: int| 0 <= i < s.drop_last().len() ==> s.drop_last()[i] == s[i]);
        lemma_count_true_all_false(s.drop_last());
    }
}

/// A settled node's tentative cost already accounts for the edge from a
/// settled node to it: the one-longer witness route bounds it from below.
proof fn lemma_settled_edge_bound(
    g: Graph,
    names: Seq<String>,
    dist: Seq<u64>,
    reached: Seq<bool>,
    done: Seq<bool>,
    prev: Seq<usize>,
    gpaths: Seq<Seq<Seq<char>>>,
    start: Seq<char>,
    best: int,
    j: int,
    dd: Seq<char>,
)
    requires
        search_inv(g, names, dist, reached, done, start),
        tree_inv(g, names, dist, reached, done, prev, gpaths, start),
        0 <= best < names.len(),
        reached[best],
        0 <= j < names.len(),
        done[j],
        name_keys(names)[j] == dd,
        has_edge(g, name_keys(names)[best], dd),
    ensures
        dist[j] <= dist[best] + edge_weight(g, name_keys(names)[best], dd),
{
    let nk = name_keys(names);
    let p = gpaths[best];
    assert(valid_path(g, p, start, nk[best]) && path_cost(g, p) == dist[best]);
    let qj = p.push(dd);
    lemma_valid_path_push(g, p, start, dd);
    lemma_path_cost_push(g, p, dd);
    assert(valid_path(g, qj, start, nk[j]));
    assert(path_cost(g, qj) >= dist[j]);
}

/// Finds the fastest route between two airports, by total average flight
/// time, using Dijkstra's single-source search over the graph whose edge
/// weights are the recorded average durations (never negative here, since
/// durations are unsigned).
///
/// Returns the total average time and the route, or nothing when `start`
/// has no route to `goal` (an unknown start is treated the same way).
/// When `start` equals `goal` the route is the single node with cost 0.
/// Among routes of equal cost, which one is returned is unspecified.
pub fn fastest_route(graph: &Graph, start: &str, goal: &str) -> (r: Option<(u64, Vec<String>)>)
    requires
        graph_wf(*graph),
    ensures
        (match r {
            Some(pr) => {
                &&& valid_path(*graph, name_keys(pr.1@), start@, goal@)
                &&& pr.0 == path_cost(*graph, name_keys(pr.1@))
                &&& forall|q: Seq<Seq<char>>|
                    valid_path(*graph, q, start@, goal@) ==> path_cost(*graph, q) >= pr.0
            },
            None => forall|q: Seq<Seq<char>>| !valid_path(*graph, q, start@, goal@),
        }),
        start@ == goal@ ==> (r matches Some(pr) && pr.0 == 0 && pr.1@.len() == 1),
{
    let start_s: String = start.to_owned();
    let goal_s: String = goal.to_owned();
    let names: Vec<String> = collect_names(graph, &start_s);
    let n: usize = names.len();
    let mut dist: Vec<u64> = fill_vec(n, 0u64);
    let mut reached: Vec<bool> = fill_vec(n, false);
    let mut done: Vec<bool> = fill_vec(n, false);
    let mut prev: Vec<usize> = fill_vec(n, 0usize);
    reached[0] = true;
    let mut processed: usize = 0;
    let ghost gp0: Seq<Seq<char>> = seq![start@];
    let ghost mut gpaths: Seq<Seq<Seq<char>>> = Seq::new(n as nat, |i: int| gp0);
    proof {
        lemma_count_true_all_false(done@);
        assert(gp0.len() == 1 && gp0[0] == start@ && gp0.last() == start@);
        assert(valid_path(*graph, gp0, start@, name_keys(names@)[0]));
        assert(path_cost(*graph, gp0) == 0);
    }
    loop
        invariant
            graph_wf(*graph),
            search_inv(*graph, names@, dist@, reached@, done@, start@),
            relaxed_inv(*graph, names@, dist@, reached@, done@),
            tree_inv(*graph, names@, dist@, reached@, done@, prev@, gpaths, start@),
            n == names@.len(),
            start_s@ == start@,
            goal_s@ == goal@,
            forall|i: int|
                0 <= i < n && #[trigger] done@[i] ==> name_keys(names@)[i] != goal@,
            processed == count_true(done@),
            processed <= n,
            forall|i: int|
                0 <= i < n && #[trigger] reached@[i] ==> dist@[i] <= (processed + 1)
                    * 0xFFFF_FFFF,
            n <= 1 + 2 * MAX_ROWS,
        decreases n - processed,
    {
        let mut best: usize = n;
        let mut bi: usize = 0;
        while bi < n
            invariant
                n == names@.len(),
                dist@.len() == n,
                reached@.len() == n,
                done@.len() == n,
                bi <= n,
                best <= n,
                best < n ==> reached@[best as int] && !done@[best as int],
                best < n ==> forall|i2: int|
                    0 <= i2 < bi && reached@[i2] && !done@[i2] ==> dist@[best as int]
                        <= #[trigger] dist@[i2],
                best == n ==> forall|i2: int|
                    0 <= i2 < bi ==> !(#[trigger] reached@[i2]) || done@[i2],
            decreases n - bi,
        {
            if reached[bi] && !done[bi] {
                if best == n || dist[bi] < dist[best] {
                    best = bi;
                }
            }
            bi = bi + 1;
        }
        if best == n {
            proof {
                let nk = name_keys(names@);
                assert forall|q: Seq<Seq<char>>| !valid_path(
                    *graph,
                    q,
                    start@,
                    goal@,
                ) by {
                    if valid_path(*graph, q, start@, goal@) {
                        if q.len() == 1 {
                            assert(q.last() == goal@ && q[0] == start@ && start@ == goal@);
                            assert(reached@[0]);
                            assert(done@[0]);
                            assert(nk[0] != goal@);
                            assert(false);
                        } else {
                            assert(has_edge(*graph, q[q.len() - 2], q[q.len() - 2 + 1]));
                            let jg = find_key(nk, goal@);
                            assert(jg >= 0);
                            lemma_find_key_props(nk, goal@);
                            assert(nk[jg] == goal@);
                            assert(!done@[jg]);
                            lemma_frontier(*graph, names@, dist@, reached@, done@, start@, q);
                            let j = choose|j: int|
                                0 <= j < names@.len() && reached@[j] && !done@[j] && dist@[j]
                                    <= path_cost(*graph, q);
                            assert(false);
                        }
                    }
                }
                assert(start@ != goal@) by {
                    assert(reached@[0]);
                    assert(done@[0]);
                }
            }
            return None;
        }
        if names[best] == goal_s {
            let cost: u64 = dist[best];
            proof {
                let nk = name_keys(names@);
                lemma_find_key_at(nk, nk[best as int], best as int);
                assert(nk[best as int] == goal@);
                assert forall|q: Seq<Seq<char>>| valid_path(
                    *graph,
                    q,
                    start@,
                    goal@,
                ) implies path_cost(*graph, q) >= cost by {
                    assert(find_key(nk, q.last()) == best as int);
                    lemma_frontier(*graph, names@, dist@, reached@, done@, start@, q);
                    let j = choose|j: int|
                        0 <= j < names@.len() && reached@[j] && !done@[j] && dist@[j]
                            <= path_cost(*graph, q);
                    assert(dist@[best as int] <= dist@[j]);
                }
                if start@ == goal@ {
                    assert(best == 0);
                }
            }
            let ghost bpath: Seq<Seq<char>> = gpaths[best as int];
            let mut revp: Vec<String> = Vec::new();
            let mut node: usize = best;
            proof {
                assert(bpath.take(bpath.len() as int) =~= bpath);
            }
            while node != 0
                invariant
                    search_inv(*graph, names@, dist@, reached@, done@, start@),
                    tree_inv(*graph, names@, dist@, reached@, done@, prev@, gpaths, start@),
                    n == names@.len(),
                    best < n,
                    node < n,
                    reached@[node as int],
                    bpath == gpaths[best as int],
                    revp@.len() < bpath.len(),
                    gpaths[node as int] == bpath.take(bpath.len() - revp@.len()),
                    forall|i2: int|
                        0 <= i2 < revp@.len() ==> (#[trigger] revp@[i2])@ == bpath[bpath.len() - 1
                            - i2],
                decreases gpaths[node as int].len(),
            {
                revp.push(names[node].clone());
                let ghost old_node: int = node as int;
                node = prev[node];
                proof {
                    let nk = name_keys(names@);
                    assert(gpaths[old_node] == gpaths[node as int].push(nk[old_node]));
                    assert(gpaths[old_node].last() == nk[old_node]);
                    assert(valid_path(*graph, gpaths[node as int], start@, nk[node as int]));
                    assert(gpaths[node as int].len() >= 1);
                    assert(gpaths[node as int] =~= bpath.take(bpath.len() - revp@.len()));
                }
            }
            revp.push(names[0].clone());
            proof {
                assert(gpaths[0] == seq![start@]);
                assert(bpath.take(bpath.len() - (revp@.len() - 1)).len() == 1);
                assert(revp@.len() == bpath.len());
                assert(bpath.take(1)[0] == bpath[0]);
                assert forall|i2: int| 0 <= i2 < revp@.len() implies (#[trigger] revp@[i2])@
                    == bpath[bpath.len() - 1 - i2] by {
                    if i2 == revp@.len() - 1 {
                        assert(revp@[i2]@ == name_keys(names@)[0]);
                    }
                }
            }
            let mut path: Vec<String> = Vec::new();
            let mut m: usize = revp.len();
            while m > 0
                invariant
                    m <= revp@.len(),
                    path@.len() == revp@.len() - m,
                    forall|i2: int|
                        0 <= i2 < path@.len() ==> (#[trigger] path@[i2]) == revp@[revp@.len() - 1
                            - i2],
                decreases m,
            {
                m = m - 1;
                path.push(revp[m].clone());
            }
            proof {
                assert(name_keys(path@) =~= bpath);
            }
            return Some((cost, path));
        }
        let ghost done0: Seq<bool> = done@;
        proof {
            let nk = name_keys(names@);
            lemma_find_key_at(nk, nk[best as int], best as int);
            assert forall|q: Seq<Seq<char>>| valid_path(
                *graph,
                q,
                start@,
                nk[best as int],
            ) implies path_cost(*graph, q) >= dist@[best as int] by {
                assert(find_key(nk, q.last()) == best as int);
                lemma_frontier(*graph, names@, dist@, reached@, done@, start@, q);
                let j = choose|j: int|
                    0 <= j < names@.len() && reached@[j] && !done@[j] && dist@[j] <= path_cost(
                        *graph,
                        q,
                    );
                assert(dist@[best as int] <= dist@[j]);
            }
        }
        done[best] = true;
        processed = processed + 1;
        proof {
            lemma_count_true_update(done0, best as int);
            let nk = name_keys(names@);
            assert(names@[best as int]@ != goal_s@);
            assert forall|i: int, q: Seq<Seq<char>>|
                0 <= i < n && done@[i] && #[trigger] valid_path(*graph, q, start@, nk[i]) implies
                path_cost(*graph, q) >= dist@[i] by {
                if i != best as int {
                    assert(done0[i]);
                }
            }
        }
        let origin_idx: Option<usize> = crate::graph::find_origin_idx(&graph.entries, &names[best]);
        match origin_idx {
            None => {
                proof {
                    let nk = name_keys(names@);
                    assert forall|i: int, dd: Seq<char>|
                        0 <= i < n && done@[i] && #[trigger] has_edge(*graph, nk[i], dd) implies {
                        let j = find_key(nk, dd);
                        reached@[j] && dist@[j] <= dist@[i] + edge_weight(*graph, nk[i], dd)
                    } by {
                        if i == best as int {
                            assert(find_origin(graph.entries@, nk[i]) == -1);
                            assert(false);
                        } else {
                            assert(done0[i]);
                        }
                    }
                }
            },
            Some(oi) => {
                let m: usize = graph.entries[oi].edges.len();
                let mut a: usize = 0;
                proof {
                    assert forall|i: int, dd: Seq<char>|
                        0 <= i < n && done@[i] && #[trigger] has_edge(
                            *graph,
                            name_keys(names@)[i],
                            dd,
                        ) && (i != best as int || find_dest(graph.entries@[oi as int].edges@, dd)
                            < 0) implies {
                        let j = find_key(name_keys(names@), dd);
                        reached@[j] && dist@[j] <= dist@[i] + edge_weight(
                            *graph,
                            name_keys(names@)[i],
                            dd,
                        )
                    } by {
                        if i == best as int {
                            assert(find_dest(graph.entries@[oi as int].edges@, dd) >= 0);
                            assert(false);
                        } else {
                            assert(done0[i]);
                        }
                    }
                }
                while a < m
                    invariant
                        graph_wf(*graph),
                        search_inv(*graph, names@, dist@, reached@, done@, start@),
                        tree_inv(*graph, names@, dist@, reached@, done@, prev@, gpaths, start@),
                        n == names@.len(),
                        best < n,
                        done@[best as int],
                        reached@[best as int],
                        start_s@ == start@,
                        goal_s@ == goal@,
                        forall|i: int|
                            0 <= i < n && #[trigger] done@[i] ==> name_keys(names@)[i] != goal@,
                        processed == count_true(done@),
                        processed <= n,
                        n <= 1 + 2 * MAX_ROWS,
                        forall|i: int|
                            0 <= i < n && #[trigger] reached@[i] ==> dist@[i] <= (processed + 1)
                                * 0xFFFF_FFFF,
                        dist@[best as int] <= processed * 0xFFFF_FFFF,
                        0 <= oi < graph.entries@.len(),
                        oi == find_origin(graph.entries@, name_keys(names@)[best as int]),
                        m == graph.entries@[oi as int].edges@.len(),
                        a <= m,
                        forall|i: int, dd: Seq<char>|
                            0 <= i < n && done@[i] && #[trigger] has_edge(
                                *graph,
                                name_keys(names@)[i],
                                dd,
                            ) && (i != best as int || find_dest(
                                graph.entries@[oi as int].edges@,
                                dd,
                            ) < a as int) ==> {
                                let j = find_key(name_keys(names@), dd);
                                reached@[j] && dist@[j] <= dist@[i] + edge_weight(
                                    *graph,
                                    name_keys(names@)[i],
                                    dd,
                                )
                            },
                    decreases m - a,
                {
                    let dest_ref: &String = &graph.entries[oi].edges[a].dest;
                    let w: u64 = graph.entries[oi].edges[a].stats.average;
                    let ghost dd: Seq<char> = dest_ref@;
                    proof {
                        let es = graph.entries@;
                        let nk = name_keys(names@);
                        assert forall|b: int| 0 <= b < a implies dest_keys(
                            es[oi as int].edges@,
                        )[b] != dd by {
                            assert(dest_keys(es[oi as int].edges@)[b] != dest_keys(
                                es[oi as int].edges@,
                            )[a as int]);
                        }
                        lemma_find_key_at(dest_keys(es[oi as int].edges@), dd, a as int);
                        assert(has_edge(*graph, nk[best as int], dd));
                        assert(edge_stats(*graph, nk[best as int], dd) == es[oi as int].edges@[
                            a as int].stats);
                        lemma_edge_stats_wf(*graph, nk[best as int], dd);
                        assert(w <= 0xFFFF_FFFF);
                        assert(dist@[best as int] + w <= (processed + 1) * 0xFFFF_FFFF);
                    }
                    let candidate: u64 = dist[best] + w;
                    let j_opt: Option<usize> = find_name_idx(&names, dest_ref);
                    match j_opt {
                        None => {
                            proof {
                                assert(false);
                            }
                        },
                        Some(j) => {
                            proof {
                                lemma_find_key_props(name_keys(names@), dd);
                                assert(name_keys(names@)[j as int] == dd);
                            }
                            let mut do_update: bool = false;
                            if !reached[j] {
                                do_update = true;
                            } else if !done[j] && candidate < dist[j] {
                                do_update = true;
                            }
                            if do_update {
                                proof {
                                    assert(!done@[j as int]);
                                    assert(j != 0);
                                }
                                let ghost dist0: Seq<u64> = dist@;
                                let ghost reached0: Seq<bool> = reached@;
                                let ghost prev0: Seq<usize> = prev@;
                                let ghost gpaths0: Seq<Seq<Seq<char>>> = gpaths;
                                dist[j] = candidate;
                                prev[j] = best;
                                reached[j] = true;
                                proof {
                                    let nk = name_keys(names@);
                                    gpaths = gpaths0.update(
                                        j as int,
                                        gpaths0[best as int].push(nk[j as int]),
                                    );
                                    lemma_valid_path_push(
                                        *graph,
                                        gpaths0[best as int],
                                        start@,
                                        dd,
                                    );
                                    lemma_path_cost_push(*graph, gpaths0[best as int], dd);
                                    assert forall|i: int, q: Seq<Seq<char>>|
                                        0 <= i < n && done@[i] && #[trigger] valid_path(
                                            *graph,
                                            q,
                                            start@,
                                            nk[i],
                                        ) implies path_cost(*graph, q) >= dist@[i] by {
                                        assert(i != j as int);
                                        assert(dist@[i] == dist0[i]);
                                    }
                                    assert forall|i: int|
                                        0 < i < n && #[trigger] reached@[i] implies prev@[i] < n
                                        && done@[prev@[i] as int] && gpaths[i] == gpaths[prev@[
                                        i] as int].push(nk[i]) by {
                                        if i != j as int {
                                            assert(reached0[i]);
                                            assert(prev0[i] == prev@[i]);
                                            assert(done@[prev@[i] as int]);
                                            assert(prev@[i] as int != j as int);
                                            assert(gpaths[i] == gpaths0[i]);
                                            assert(gpaths[prev@[i] as int] == gpaths0[prev@[
                                            i] as int]);
                                        } else {
                                            assert(prev@[i] == best as int);
                                            assert(gpaths[best as int] == gpaths0[best as int]);
                                        }
                                    }
                                    assert forall|i: int|
                                        0 <= i < n && #[trigger] reached@[i] implies valid_path(
                                            *graph,
                                            gpaths[i],
                                            start@,
                                            nk[i],
                                        ) && path_cost(*graph, gpaths[i]) == dist@[i] by {
                                        if i != j as int {
                                            assert(reached0[i]);
                                            assert(gpaths[i] == gpaths0[i]);
                                            assert(dist@[i] == dist0[i]);
                                        }
                                    }
                                    assert forall|i: int, dd2: Seq<char>|
                                        0 <= i < n && done@[i] && #[trigger] has_edge(
                                            *graph,
                                            nk[i],
                                            dd2,
                                        ) && (i != best as int || find_dest(
                                            graph.entries@[oi as int].edges@,
                                            dd2,
                                        ) < a as int + 1) implies {
                                        let j2 = find_key(nk, dd2);
                                        reached@[j2] && dist@[j2] <= dist@[i] + edge_weight(
                                            *graph,
                                            nk[i],
                                            dd2,
                                        )
                                    } by {
                                        let j2 = find_key(nk, dd2);
                                        lemma_find_key_props(nk, dd2);
                                        if i == best as int && find_dest(
                                            graph.entries@[oi as int].edges@,
                                            dd2,
                                        ) == a as int {
                                            lemma_find_key_props(
                                                dest_keys(graph.entries@[oi as int].edges@),
                                                dd2,
                                            );
                                            assert(dd2 == dd);
                                            assert(j2 == j as int);
                                            assert(dist@[j2] == candidate);
                                        } else {
                                            assert(reached0[j2] && dist0[j2] <= dist0[i]
                                                + edge_weight(*graph, nk[i], dd2));
                                            assert(dist@[i] == dist0[i]);
                                            if j2 == j as int {
                                                assert(dist@[j2] <= dist0[j2]);
                                            } else {
                                                assert(dist@[j2] == dist0[j2]);
                                            }
                                        }
                                    }
                                }
                            } else {
                                proof {
                                    let nk = name_keys(names@);
                                    assert(reached@[j as int]);
                                    if done@[j as int] {
                                        lemma_settled_edge_bound(
                                            *graph,
                                            names@,
                                            dist@,
                                            reached@,
                                            done@,
                                            prev@,
                                            gpaths,
                                            start@,
                                            best as int,
                                            j as int,
                                            dd,
                                        );
                                    }
                                    assert(dist@[j as int] <= dist@[best as int] + edge_weight(
                                        *graph,
                                        nk[best as int],
                                        dd,
                                    ));
                                    assert forall|i: int, dd2: Seq<char>|
                                        0 <= i < n && done@[i] && #[trigger] has_edge(
                                            *graph,
                                            nk[i],
                                            dd2,
                                        ) && (i != best as int || find_dest(
                                            graph.entries@[oi as int].edges@,
                                            dd2,
                                        ) < a as int + 1) implies {
                                        let j2 = find_key(nk, dd2);
                                        reached@[j2] && dist@[j2] <= dist@[i] + edge_weight(
                                            *graph,
                                            nk[i],
                                            dd2,
                                        )
                                    } by {
                                        if i == best as int && find_dest(
                                            graph.entries@[oi as int].edges@,
                                            dd2,
                                        ) == a as int {
                                            lemma_find_key_props(
                                                dest_keys(graph.entries@[oi as int].edges@),
                                                dd2,
                                            );
                                            assert(dd2 == dd);
                                        }
                                    }
                                }
                            }
                        },
                    }
                    a = a + 1;
                }
                proof {
                    let nk = name_keys(names@);
                    assert forall|i: int, dd: Seq<char>|
                        0 <= i < n && done@[i] && #[trigger] has_edge(*graph, nk[i], dd) implies {
                        let j = find_key(nk, dd);
                        reached@[j] && dist@[j] <= dist@[i] + edge_weight(*graph, nk[i], dd)
                    } by {
                        if i == best as int {
                            lemma_find_key_props(dest_keys(graph.entries@[oi as int].edges@), dd);
                            assert(find_dest(graph.entries@[oi as int].edges@, dd) < m);
                        }
                    }
                }
            },
        }
    }
}

} // verus!
