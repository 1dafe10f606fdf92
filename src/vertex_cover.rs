//! Exact minimum vertex cover by branching on an edge.
use vstd::prelude::*;

verus! {

/// An undirected graph given by its edges.
pub struct MVCGraph {
    pub edges: Vec<(usize, usize)>,
}

/// Every edge has an end in `s`.
pub open spec fn covers(s: Set<usize>, edges: Seq<(usize, usize)>) -> bool {
    forall|k: int| 0 <= k < edges.len() ==> s.contains(#[trigger] edges[k].0) || s.contains(edges[k].1)
}

/// `x` is an end of some edge.
pub open spec fn is_endpoint(edges: Seq<(usize, usize)>, x: usize) -> bool {
    exists|k: int| 0 <= k < edges.len() && ((#[trigger] edges[k]).0 == x || edges[k].1 == x)
}

/// `c` is a vertex cover of `edges` and no cover is smaller.
pub open spec fn is_minimum_cover(c: Seq<usize>, edges: Seq<(usize, usize)>) -> bool {
    &&& c.no_duplicates()
    &&& covers(c.to_set(), edges)
    &&& forall|s: Set<usize>| s.finite() && #[trigger] covers(s, edges) ==> s.len() >= c.len()
}

impl MVCGraph {
    pub fn new() -> (r: Self)
        ensures
            r.edges@.len() == 0,
    {
        MVCGraph { edges: Vec::new() }
    }

    pub fn empty(&self) -> (r: bool)
        ensures
            r == (self.edges@.len() == 0),
    {
        self.edges.len() == 0
    }

    pub fn add_edge(&mut self, u: usize, v: usize)
        ensures
            final(self).edges@ == old(self).edges@.push((u, v)),
    {
        self.edges.push((u, v));
    }

    /// Removes every copy of the edge `(u, v)`.
    pub fn remove_edge(&mut self, u: usize, v: usize)
        ensures
            forall|e: (usize, usize)| #[trigger] final(self).edges@.contains(e) <==> old(self).edges@.contains(e) && e != (u, v),
    {
        let mut kept: Vec<(usize, usize)> = Vec::new();
        let mut i: usize = 0;
        while i < self.edges.len()
            invariant
                i <= self.edges@.len(),
                forall|e: (usize, usize)| #[trigger] kept@.contains(e) <==> self.edges@.take(i as int).contains(e) && e != (u, v),
            decreases self.edges@.len() - i,
        {
            let e = self.edges[i];
            let ghost before = kept@;
            if !(e.0 == u && e.1 == v) {
                kept.push(e);
            }
            proof {
                let t1 = self.edges@.take(i + 1);
                assert(t1 =~= self.edges@.take(i as int).push(e));
                assert forall|f: (usize, usize)| #[trigger] kept@.contains(f) <==> t1.contains(f) && f != (u, v) by {
                    if before.contains(f) {
                        let k = choose|k: int| 0 <= k < before.len() && before[k] == f;
                        assert(kept@[k] == f);
                        let ti = self.edges@.take(i as int);
                        let j = choose|j: int| 0 <= j < ti.len() && ti[j] == f;
                        assert(t1[j] == f);
                    }
                    if kept@.contains(f) && !before.contains(f) {
                        let k = choose|k: int| 0 <= k < kept@.len() && kept@[k] == f;
                        assert(k >= before.len());
                        assert(t1[i as int] == e);
                    }
                    if t1.contains(f) && f != (u, v) {
                        let k = choose|k: int| 0 <= k < t1.len() && t1[k] == f;
                        if k < i {
                            assert(self.edges@.take(i as int)[k] == f);
                        } else {
                            assert(kept@[kept@.len() - 1] == f);
                        }
                    }
                }
            }
            i += 1;
        }
        proof {
            assert(self.edges@.take(i as int) =~= self.edges@);
        }
        self.edges = kept;
    }

    /// The other ends of the edges at `u`, or `None` when there is none.
    pub fn get_neighbours(&self, u: usize) -> (r: Option<Vec<usize>>)
        ensures
            r is None <==> !is_endpoint(self.edges@, u),
            r matches Some(ns) ==> forall|x: usize| #[trigger] ns@.contains(x) <==> self.edges@.contains((u, x))
                || self.edges@.contains((x, u)),
    {
        let mut ns: Vec<usize> = Vec::new();
        let mut i: usize = 0;
        while i < self.edges.len()
            invariant
                i <= self.edges@.len(),
                forall|x: usize| #[trigger] ns@.contains(x) <==> self.edges@.take(i as int).contains((u, x))
                    || self.edges@.take(i as int).contains((x, u)),
            decreases self.edges@.len() - i,
        {
            let e = self.edges[i];
            let ghost before = ns@;
            if e.0 == u {
                ns.push(e.1);
            }
            if e.1 == u {
                ns.push(e.0);
            }
            proof {
                let t1 = self.edges@.take(i + 1);
                assert(t1 =~= self.edges@.take(i as int).push(e));
                assert forall|x: usize| #[trigger] ns@.contains(x) <==> t1.contains((u, x)) || t1.contains((x, u)) by {
                    if before.contains(x) {
                        let k = choose|k: int| 0 <= k < before.len() && before[k] == x;
                        assert(ns@[k] == x);
                    }
                    if ns@.contains(x) && !before.contains(x) {
                        let k = choose|k: int| 0 <= k < ns@.len() && ns@[k] == x;
                        assert(k >= before.len());
                        assert(t1[i as int] == e);
                    }
                    if t1.contains((u, x)) {
                        let k = choose|k: int| 0 <= k < t1.len() && t1[k] == (u, x);
                        if k < i {
                            assert(self.edges@.take(i as int)[k] == (u, x));
                        } else {
                            assert(ns@[before.len() as int] == x);
                        }
                    }
                    if t1.contains((x, u)) {
                        let k = choose|k: int| 0 <= k < t1.len() && t1[k] == (x, u);
                        if k < i {
                            assert(self.edges@.take(i as int)[k] == (x, u));
                        } else {
                            assert(ns@[ns@.len() - 1] == x);
                        }
                    }
                }
            }
            i += 1;
        }
        proof {
            assert(self.edges@.take(i as int) =~= self.edges@);
        }
        if ns.len() == 0 {
            proof {
                if is_endpoint(self.edges@, u) {
                    let k = choose|k: int| 0 <= k < self.edges@.len() && ((#[trigger] self.edges@[k]).0 == u || self.edges@[k].1 == u);
                    let e = self.edges@[k];
                    if e.0 == u {
                        assert(self.edges@.contains((u, e.1)));
                        assert(ns@.contains(e.1));
                    } else {
                        assert(self.edges@.contains((e.0, u)));
                        assert(ns@.contains(e.0));
                    }
                }
            }
            None
        } else {
            proof {
                let x = ns@[0];
                assert(ns@.contains(x));
                if self.edges@.contains((u, x)) {
                    let k = choose|k: int| 0 <= k < self.edges@.len() && self.edges@[k] == (u, x);
                    assert(self.edges@[k].0 == u);
                    assert(is_endpoint(self.edges@, u));
                } else {
                    let k = choose|k: int| 0 <= k < self.edges@.len() && self.edges@[k] == (x, u);
                    assert(self.edges@[k].1 == u);
                    assert(is_endpoint(self.edges@, u));
                }
            }
            Some(ns)
        }
    }

    pub fn get_some_edge(&self) -> (r: Option<(usize, usize)>)
        ensures
            r is None <==> self.edges@.len() == 0,
            r matches Some(e) ==> e == self.edges@[0],
    {
        if self.edges.len() == 0 {
            None
        } else {
            Some(self.edges[0])
        }
    }

    /// Removes every edge at `u`.
    pub fn remove_vertex(&mut self, u: usize)
        ensures
            forall|e: (usize, usize)| #[trigger] final(self).edges@.contains(e) <==> old(self).edges@.contains(e) && e.0 != u
                && e.1 != u,
    {
        self.edges = without_vertex(&self.edges, u);
    }
}

/// The edges that do not touch `u`.
fn without_vertex(edges: &Vec<(usize, usize)>, u: usize) -> (r: Vec<(usize, usize)>)
    ensures
        forall|e: (usize, usize)| #[trigger] r@.contains(e) <==> edges@.contains(e) && e.0 != u && e.1 != u,
{
    let mut kept: Vec<(usize, usize)> = Vec::new();
    let mut i: usize = 0;
    while i < edges.len()
        invariant
            i <= edges@.len(),
            forall|e: (usize, usize)| #[trigger] kept@.contains(e) <==> edges@.take(i as int).contains(e) && e.0 != u && e.1 != u,
        decreases edges@.len() - i,
    {
        let e = edges[i];
        let ghost before = kept@;
        if e.0 != u && e.1 != u {
            kept.push(e);
        }
        proof {
            let t1 = edges@.take(i + 1);
            assert(t1 =~= edges@.take(i as int).push(e));
            assert forall|f: (usize, usize)| #[trigger] kept@.contains(f) <==> t1.contains(f) && f.0 != u && f.1 != u by {
                if before.contains(f) {
                    let k = choose|k: int| 0 <= k < before.len() && before[k] == f;
                    assert(kept@[k] == f);
                    let ti = edges@.take(i as int);
                    let j = choose|j: int| 0 <= j < ti.len() && ti[j] == f;
                    assert(t1[j] == f);
                }
                if kept@.contains(f) && !before.contains(f) {
                    let k = choose|k: int| 0 <= k < kept@.len() && kept@[k] == f;
                    assert(k >= before.len());
                    assert(t1[i as int] == e);
                }
                if t1.contains(f) && f.0 != u && f.1 != u {
                    let k = choose|k: int| 0 <= k < t1.len() && t1[k] == f;
                    if k < i {
                        assert(edges@.take(i as int)[k] == f);
                    } else {
                        assert(kept@[kept@.len() - 1] == f);
                    }
                }
            }
        }
        i += 1;
    }
    proof {
        assert(edges@.take(i as int) =~= edges@);
    }
    kept
}


/// The graph without the edges at `w`.
pub open spec fn is_without(g: Seq<(usize, usize)>, gw: Seq<(usize, usize)>, w: usize) -> bool {
    forall|e: (usize, usize)| #[trigger] gw.contains(e) <==> g.contains(e) && e.0 != w && e.1 != w
}

/// A cover that holds `w`, less `w`, covers the graph without the edges at `w`.
proof fn lemma_cover_without(g: Seq<(usize, usize)>, gw: Seq<(usize, usize)>, w: usize, s: Set<usize>)
    requires
        s.finite(),
        covers(s, g),
        s.contains(w),
        is_without(g, gw, w),
    ensures
        covers(s.remove(w), gw),
        s.remove(w).len() == s.len() - 1,
{
    assert forall|k: int| 0 <= k < gw.len() implies s.remove(w).contains(#[trigger] gw[k].0) || s.remove(w).contains(gw[k].1) by {
        assert(gw.contains(gw[k]));
        let j = choose|j: int| 0 <= j < g.len() && g[j] == gw[k];
        assert(s.contains(g[j].0) || s.contains(g[j].1));
    }
}

/// A cover of the graph without the edges at `w`, with `w`, covers the graph.
proof fn lemma_cover_with(g: Seq<(usize, usize)>, gw: Seq<(usize, usize)>, w: usize, c: Seq<usize>)
    requires
        covers(c.to_set(), gw),
        is_without(g, gw, w),
    ensures
        covers(c.push(w).to_set(), g),
{
    assert forall|k: int| 0 <= k < g.len() implies c.push(w).to_set().contains(#[trigger] g[k].0) || c.push(w).to_set().contains(g[k].1) by {
        let e = g[k];
        assert(c.push(w)[c.len() as int] == w);
        if e.0 != w && e.1 != w {
            assert(g.contains(e));
            assert(gw.contains(e));
            let j = choose|j: int| 0 <= j < gw.len() && gw[j] == e;
            assert(c.to_set().contains(gw[j].0) || c.to_set().contains(gw[j].1));
            if c.to_set().contains(e.0) {
                let i = choose|i: int| 0 <= i < c.len() && c[i] == e.0;
                assert(c.push(w)[i] == e.0);
            } else {
                let i = choose|i: int| 0 <= i < c.len() && c[i] == e.1;
                assert(c.push(w)[i] == e.1);
            }
        }
    }
}

/// The result of a branch: a cover of the graph without the edges at `w`, with `w`.
fn extend_cover(
    g: Ghost<Seq<(usize, usize)>>,
    gw: Ghost<Seq<(usize, usize)>>,
    w: usize,
    sub: Option<Vec<usize>>,
) -> (r: Option<Vec<usize>>)
    requires
        is_without(g@, gw@, w),
        is_endpoint(g@, w),
        sub matches Some(c) ==> c@.no_duplicates() && covers(c@.to_set(), gw@) && forall|x: usize|
            #[trigger] c@.contains(x) ==> is_endpoint(gw@, x),
    ensures
        r is Some <==> sub is Some,
        r matches Some(c) ==> sub matches Some(d) && c@ == d@.push(w) && c@.no_duplicates() && covers(c@.to_set(), g@)
            && forall|x: usize| #[trigger] c@.contains(x) ==> is_endpoint(g@, x),
{
    match sub {
        Some(mut c) => {
            let ghost d = c@;
            proof {
                if d.contains(w) {
                    assert(is_endpoint(gw@, w));
                    let k = choose|k: int| 0 <= k < gw@.len() && ((#[trigger] gw@[k]).0 == w || gw@[k].1 == w);
                    assert(gw@.contains(gw@[k]));
                }
                lemma_cover_with(g@, gw@, w, d);
            }
            c.push(w);
            proof {
                assert forall|x: usize| #[trigger] c@.contains(x) implies is_endpoint(g@, x) by {
                    if x != w {
                        let i = choose|i: int| 0 <= i < c@.len() && c@[i] == x;
                        assert(d[i] == x);
                        assert(d.contains(x));
                        let k = choose|k: int| 0 <= k < gw@.len() && ((#[trigger] gw@[k]).0 == x || gw@[k].1 == x);
                        assert(gw@.contains(gw@[k]));
                        let j = choose|j: int| 0 <= j < g@.len() && g@[j] == gw@[k];
                        assert(g@[j].0 == x || g@[j].1 == x);
                    }
                }
                assert forall|i: int, j: int| 0 <= i < j < c@.len() implies c@[i] != c@[j] by {
                    if j == c@.len() - 1 {
                        assert(d[i] == c@[i]);
                        assert(d.contains(c@[i]));
                    }
                }
            }
            Some(c)
        },
        None => None,
    }
}

/// A minimum vertex cover of the graph among those of at most `k` vertices, or `None`
/// when every cover has more than `k`.
pub fn min_vertex_cover(graph: &MVCGraph, k: usize) -> (r: Option<Vec<usize>>)
    ensures
        r matches Some(c) ==> is_minimum_cover(c@, graph.edges@) && c@.len() <= k && forall|x: usize|
            #[trigger] c@.contains(x) ==> is_endpoint(graph.edges@, x),
        r is None ==> forall|s: Set<usize>| s.finite() && #[trigger] covers(s, graph.edges@) ==> s.len() > k,
    decreases k,
{
    let ghost g = graph.edges@;
    if graph.empty() {
        let c: Vec<usize> = Vec::new();
        proof {
            assert(c@.to_set() =~= Set::<usize>::empty());
        }
        return Some(c);
    }
    let (u, v) = match graph.get_some_edge() {
        Some(e) => e,
        None => {
            return None;
        },
    };
    proof {
        assert(is_endpoint(g, u) && is_endpoint(g, v)) by {
            assert(g[0].0 == u);
        }
    }
    if k == 0 {
        proof {
            assert forall|s: Set<usize>| s.finite() && #[trigger] covers(s, g) implies s.len() > k by {
                assert(s.contains(g[0].0) || s.contains(g[0].1));
                if s.contains(u) {
                    assert(s.remove(u).len() == s.len() - 1);
                } else {
                    assert(s.remove(v).len() == s.len() - 1);
                }
            }
        }
        return None;
    }
    let gu = MVCGraph { edges: without_vertex(&graph.edges, u) };
    let gv = MVCGraph { edges: without_vertex(&graph.edges, v) };
    let ru = min_vertex_cover(&gu, k - 1);
    let rv = min_vertex_cover(&gv, k - 1);
    let cu = extend_cover(Ghost(g), Ghost(gu.edges@), u, ru);
    let cv = extend_cover(Ghost(g), Ghost(gv.edges@), v, rv);
    let r = match (cu, cv) {
        (Some(a), Some(b)) => {
            if a.len() < b.len() {
                Some(a)
            } else {
                Some(b)
            }
        },
        (Some(a), None) => Some(a),
        (None, Some(b)) => Some(b),
        (None, None) => None,
    };
    proof {
        assert forall|s: Set<usize>| s.finite() && #[trigger] covers(s, g) implies (r matches Some(c) ==> s.len() >= c@.len())
            && (r is None ==> s.len() > k) by {
            assert(s.contains(g[0].0) || s.contains(g[0].1));
            if s.contains(u) {
                lemma_cover_without(g, gu.edges@, u, s);
                assert(covers(s.remove(u), gu.edges@));
            } else {
                lemma_cover_without(g, gv.edges@, v, s);
                assert(covers(s.remove(v), gv.edges@));
            }
        }
    }
    r
}


pub open spec fn first_ends(g: Seq<(usize, usize)>) -> Seq<usize> {
    g.map_values(|e: (usize, usize)| e.0)
}

/// The first ends of the edges cover the graph, with no more vertices than edges.
proof fn lemma_some_cover(g: Seq<(usize, usize)>)
    ensures
        covers(first_ends(g).to_set(), g),
        first_ends(g).to_set().finite(),
        first_ends(g).to_set().len() <= g.len(),
{
    let f = first_ends(g);
    f.lemma_cardinality_of_set();
    assert forall|k: int| 0 <= k < g.len() implies f.to_set().contains(#[trigger] g[k].0) || f.to_set().contains(g[k].1) by {
        assert(f[k] == g[k].0);
    }
}

/// A minimum vertex cover, found by trying bounds 1, 2, 4, ... up to the number of edges.
pub fn find_mvc(graph: &MVCGraph) -> (r: Vec<usize>)
    ensures
        is_minimum_cover(r@, graph.edges@),
{
    let n = graph.edges.len();
    proof {
        lemma_some_cover(graph.edges@);
    }
    let mut k: usize = 1;
    loop
        invariant
            n == graph.edges@.len(),
            1 <= k,
            k <= n || n == 0,
        decreases n - k,
    {
        match min_vertex_cover(graph, k) {
            Some(c) => {
                return c;
            },
            None => {
                proof {
                    lemma_some_cover(graph.edges@);
                    let s = first_ends(graph.edges@).to_set();
                    assert(covers(s, graph.edges@));
                    assert(s.len() > k);
                }
                k = if k > n / 2 {
                    n
                } else {
                    2 * k
                };
            },
        }
    }
}

} // verus!
