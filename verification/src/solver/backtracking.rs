use vstd::prelude::*;
use crate::graph::Graph;
use crate::graph::contains_val;
use crate::graph::lemma_filter_membership;
use crate::graph::lemma_filter_no_duplicates;
use crate::graph::lemma_take_no_dup;
use crate::graph::lemma_filter_push;
use crate::graph::lemma_no_dup_len;

verus! {

/// `s` is a set of nodes of `g` every two of which are adjacent in `g`.
pub open spec fn clique_in(g: Graph, s: Set<usize>) -> bool {
    &&& forall|n: usize| s.contains(n) ==> g.has_node(n)
    &&& forall|a: usize, b: usize|
        s.contains(a) && s.contains(b) && a != b ==> g.has_edge(a, b)
}

/// `c` holds a subset of `g`'s nodes and exactly `g`'s edges among them.
pub open spec fn induced_subgraph(g: Graph, c: Graph) -> bool {
    &&& forall|n: usize| #[trigger] c.has_node(n) ==> g.has_node(n)
    &&& forall|a: usize, b: usize|
        #[trigger] c.adj(a).contains(b)
            <==> c.has_node(a) && c.has_node(b) && a != b && g.has_edge(a, b)
}

/// A graph value the search passes around: an induced subgraph of `g`,
/// duplicate-free, whose degree mark covers every list and never exceeds
/// one less than its node count.
pub open spec fn solver_candidate(g: Graph, c: Graph) -> bool {
    &&& c.wf()
    &&& c.dedup()
    &&& c.deg_covers()
    &&& induced_subgraph(g, c)
    &&& c.node_seq().len() == 0 ==> c.deg() == 0
    &&& c.node_seq().len() > 0 ==> c.deg() <= c.node_seq().len() - 1
}

/// A complete nonempty search candidate has its degree mark pinned to one
/// less than its node count, and as many node-set members as nodes.
proof fn lemma_complete_deg(g: Graph, c: Graph)
    requires
        solver_candidate(g, c),
        c.complete(),
        c.node_seq().len() > 0,
    ensures
        c.nodes_set().len() == c.node_seq().len(),
        c.deg() == c.node_seq().len() - 1,
{
    c.lemma_node_seq_no_duplicates();
    lemma_no_dup_len(c.node_seq());
    let a = c.node_seq()[0];
    assert(c.has_node(a));
    let l = c.adj(a);
    assert(l.no_duplicates());
    lemma_no_dup_len(l);
    assert(l.to_set() =~= c.nodes_set().remove(a)) by {
        assert forall|y: usize| l.to_set().contains(y) implies c.nodes_set().remove(a).contains(
            y,
        ) by {
            assert(c.adj(a).contains(y));
            assert(c.has_node(y) && y != a);
        }
        assert forall|y: usize| c.nodes_set().remove(a).contains(y) implies l.to_set().contains(
            y,
        ) by {
            assert(c.has_node(y) && y != a);
            assert(c.adj(a).contains(y));
        }
    }
    assert(c.nodes_set().contains(a));
    assert(c.nodes_set().remove(a).len() == c.nodes_set().len() - 1);
    assert(l.len() == c.node_seq().len() - 1);
    assert(l.len() <= c.deg());
}

/// Solves the maximum clique problem by exhaustive backtracking: the result
/// is a complete induced subgraph of `graph` at least as large as every
/// clique of `graph`.
pub fn solve(graph: &Graph) -> (r: Graph)
    requires
        graph.wf(),
        graph.mirrored(),
        graph.loop_free(),
    ensures
        solver_candidate(*graph, r),
        r.complete(),
        graph.node_seq().len() > 0 ==> r.node_seq().len() > 0,
        forall|s: Set<usize>|
            #[trigger] clique_in(*graph, s) ==> s.len() <= r.nodes_set().len(),
{
    let cands = graph.nodes();
    let start = Graph::default();
    proof {
        graph.lemma_node_seq_no_duplicates();
        assert forall|m: usize| !start.has_node(m) by {
            assert(start.node_seq().len() == 0);
            if start.node_seq().contains(m) {
                let k = choose|k: int| 0 <= k < start.node_seq().len()
                    && start.node_seq()[k] == m;
            }
        }
        assert(solver_candidate(*graph, start));
        assert(start.complete());
    }
    let r = backtracking(graph, cands.as_slice(), start);
    proof {
        let ns = graph.node_seq();
        assert forall|s: Set<usize>|
            #[trigger] clique_in(*graph, s) implies s.len() <= r.nodes_set().len() by {
            assert(s.subset_of(ns.to_set())) by {
                assert forall|y: usize| s.contains(y) implies ns.to_set().contains(y) by {
                    assert(graph.has_node(y));
                }
            }
            vstd::seq_lib::seq_to_set_is_finite::<usize>(ns);
            vstd::set_lib::lemma_len_subset(s, ns.to_set());
            assert(start.nodes_set().union(s) =~= s) by {
                if start.nodes_set().contains(start.nodes_set().choose()) {
                    assert(start.has_node(start.nodes_set().choose()));
                }
                assert forall|y: usize| start.nodes_set().contains(y) implies s.contains(y) by {
                    assert(start.has_node(y));
                }
            }
            assert(clique_in(*graph, start.nodes_set().union(s)));
        }
        if graph.node_seq().len() > 0 {
            let n0 = graph.node_seq()[0];
            let s0: Set<usize> = Set::empty().insert(n0);
            assert(graph.has_node(n0));
            assert(clique_in(*graph, s0));
            assert(s0.len() == 1);
            r.lemma_node_seq_no_duplicates();
            lemma_no_dup_len(r.node_seq());
        }
    }
    r
}

/// One level of the search: for each remaining candidate in turn, extend the
/// accumulated subgraph by that node and the induced edges, recurse on the
/// strictly later candidates, and keep the best complete solution seen.
pub fn backtracking(graph: &Graph, nodes: &[usize], clique: Graph) -> (r: Graph)
    requires
        graph.wf(),
        graph.mirrored(),
        graph.loop_free(),
        nodes@.no_duplicates(),
        forall|k: int| 0 <= k < nodes@.len() ==> graph.has_node(#[trigger] nodes@[k]),
        forall|k: int| 0 <= k < nodes@.len() ==> !clique.has_node(#[trigger] nodes@[k]),
        solver_candidate(*graph, clique),
    ensures
        solver_candidate(*graph, r),
        clique.complete() ==> r.complete(),
        clique.nodes_set().subset_of(r.nodes_set()),
        r.nodes_set().subset_of(clique.nodes_set().union(nodes@.to_set())),
        forall|s: Set<usize>|
            s.subset_of(nodes@.to_set())
                && #[trigger] clique_in(*graph, clique.nodes_set().union(s))
                ==> r.complete() && clique.nodes_set().union(s).len() <= r.nodes_set().len(),
    decreases nodes@.len(),
{
    let ghost clique0 = clique;
    let mut subgraph = clique.clone();
    let mut best = clique;
    let len: usize = nodes.len();
    proof {
        assert forall|m: usize| subgraph.has_node(m) == clique0.has_node(m) by {}
    }
    proof {
        assert(nodes@.skip(0) =~= nodes@);
    }
    let mut i: usize = 0;
    while i < len
        invariant
            len == nodes@.len(),
            i <= len,
            graph.wf(),
            graph.mirrored(),
            graph.loop_free(),
            nodes@.no_duplicates(),
            forall|k: int| 0 <= k < len ==> graph.has_node(#[trigger] nodes@[k]),
            forall|k: int| 0 <= k < len ==> !clique0.has_node(#[trigger] nodes@[k]),
            solver_candidate(*graph, clique0),
            subgraph.wf(),
            subgraph.dedup(),
            subgraph.deg_covers(),
            forall|m: usize| #[trigger] subgraph.has_node(m) == clique0.has_node(m),
            forall|m: usize| #[trigger] subgraph.adj(m) == clique0.adj(m),
            subgraph.node_seq().len() == clique0.node_seq().len(),
            subgraph.node_seq().len() == 0 ==> subgraph.deg() == 0,
            subgraph.deg() <= subgraph.node_seq().len(),
            solver_candidate(*graph, best),
            clique0.complete() ==> best.complete(),
            clique0.nodes_set().subset_of(best.nodes_set()),
            best.nodes_set().subset_of(clique0.nodes_set().union(nodes@.to_set())),
            forall|s: Set<usize>|
                s.subset_of(nodes@.to_set())
                    && #[trigger] clique_in(*graph, clique0.nodes_set().union(s))
                    && !s.subset_of(nodes@.skip(i as int).to_set())
                    ==> best.complete()
                        && clique0.nodes_set().union(s).len() <= best.nodes_set().len(),
        decreases len - i,
    {
        let n = nodes[i];
        proof {
            assert(!subgraph.has_node(n));
            assert(induced_subgraph(*graph, subgraph)) by {
                assert forall|a: usize, b: usize|
                    #[trigger] subgraph.adj(a).contains(b)
                        <==> subgraph.has_node(a) && subgraph.has_node(b) && a != b
                            && graph.has_edge(a, b) by {
                    assert(subgraph.adj(a) == clique0.adj(a));
                    assert(clique0.adj(a).contains(b) <==> clique0.has_node(a)
                        && clique0.has_node(b) && a != b && graph.has_edge(a, b));
                }
            }
        }
        subgraph.insert_node(n);
        let ghost len0 = clique0.node_seq().len() as int;
        let snodes = subgraph.nodes();
        let slen: usize = snodes.len();
        let adjn = graph.adjlst_of(n);
        let ghost pred = |c: usize| graph.adj(n).contains(c);
        proof {
            assert(snodes@ == subgraph.node_seq());
            subgraph.lemma_node_seq_no_duplicates();
            assert(subgraph.adj(n) == Seq::<usize>::empty());
            assert(snodes@.take(0) =~= Seq::<usize>::empty());
            assert(Seq::<usize>::empty().filter(pred) =~= Seq::<usize>::empty()) by {
                reveal(Seq::filter);
            }
            assert(!pred(n));
            assert forall|m: usize| #[trigger] snodes@.contains(m) <==> (clique0.has_node(m)
                || m == n) by {
                assert(snodes@.contains(m) == subgraph.has_node(m));
            }
        }
        let mut j: usize = 0;
        while j < slen
            invariant
                graph.wf(),
                graph.mirrored(),
                graph.loop_free(),
                slen == snodes@.len(),
                j <= slen,
                slen == len0 + 1,
                n == nodes@[i as int],
                i < len,
                len == nodes@.len(),
                adjn@ == graph.adj(n),
                forall|c: usize| #[trigger] pred(c) == graph.adj(n).contains(c),
                !pred(n),
                len0 == clique0.node_seq().len(),
                solver_candidate(*graph, clique0),
                !clique0.has_node(n),
                graph.has_node(n),
                snodes@.no_duplicates(),
                forall|m: usize| #[trigger] snodes@.contains(m) <==> (clique0.has_node(m) || m
                    == n),
                subgraph.wf(),
                subgraph.node_seq() == snodes@,
                forall|m: usize| #[trigger] subgraph.has_node(m) <==> (clique0.has_node(m) || m
                    == n),
                subgraph.adj(n) == snodes@.take(j as int).filter(pred),
                forall|m: usize|
                    m != n && !(#[trigger] snodes@.take(j as int).contains(m))
                        ==> subgraph.adj(m) == clique0.adj(m),
                forall|k: int|
                    0 <= k < j && snodes@[k] != n ==> #[trigger] subgraph.adj(snodes@[k]) == (
                    if pred(snodes@[k]) {
                        clique0.adj(snodes@[k]).push(n)
                    } else {
                        clique0.adj(snodes@[k])
                    }),
                subgraph.dedup(),
                subgraph.deg_covers(),
                subgraph.deg() <= if len0 == 0 { 0int } else { len0 },
            decreases slen - j,
        {
            let c = snodes[j];
            let ghost subx = subgraph;
            let ghost tkj = snodes@.take(j as int);
            proof {
                assert(snodes@.take(j + 1) =~= tkj.push(c));
                lemma_filter_push(tkj, c, pred);
                lemma_filter_no_duplicates(tkj, pred);
                lemma_take_no_dup(snodes@, j as int);
            }
            proof {
                assert(!tkj.contains(c)) by {
                    if tkj.contains(c) {
                        let k = choose|k: int| 0 <= k < j && tkj[k] == c;
                        assert(snodes@[k] == c && snodes@[j as int] == c);
                    }
                }
            }
            if contains_val(adjn, c) {
                proof {
                    assert(pred(c));
                    assert(c != n);
                    assert(subgraph.has_node(c));
                    // current neighbour lists are short enough to extend
                    assert(subgraph.adj(c) == clique0.adj(c));
                    assert(clique0.adj(c).len() <= clique0.deg());
                    assert(subgraph.adj(n).len() <= tkj.len()) by {
                        broadcast use vstd::seq_lib::group_filter_ensures;

                    }
                }
                subgraph.insert_edge((c, n));
                proof {
                    assert(subgraph.adj(c) == clique0.adj(c).push(n));
                    assert(subgraph.adj(n) == subx.adj(n).push(c));
                    assert(subgraph.adj(n) == snodes@.take(j + 1).filter(pred));
                    assert forall|m: usize|
                        m != n && !(#[trigger] snodes@.take(j + 1).contains(m))
                            implies subgraph.adj(m) == clique0.adj(m) by {
                        Graph::lemma_contains_push(tkj, c, m);
                        assert(m != c);
                        assert(subgraph.adj(m) == subx.adj(m));
                    }
                    assert(subgraph.dedup()) by {
                        assert forall|m: usize| (#[trigger] subgraph.adj(m)).no_duplicates() by {
                            if m == n {
                                lemma_filter_no_duplicates(snodes@.take(j + 1), pred);
                                lemma_take_no_dup(snodes@, j + 1);
                            } else if m == c {
                                assert(!clique0.adj(c).contains(n)) by {
                                    if clique0.adj(c).contains(n) {
                                        assert(clique0.has_node(n));
                                    }
                                }
                                assert(clique0.adj(c).no_duplicates());
                                assert forall|p: int, q: int|
                                    0 <= p < subgraph.adj(c).len() && 0 <= q < subgraph.adj(
                                        c,
                                    ).len() && p != q implies subgraph.adj(c)[p] != subgraph.adj(
                                        c,
                                    )[q] by {
                                    let l0 = clique0.adj(c);
                                    if p < l0.len() && q < l0.len() {
                                    } else if p == l0.len() {
                                        assert(l0.contains(l0[q]));
                                    } else if q == l0.len() {
                                        assert(l0.contains(l0[p]));
                                    }
                                }
                            } else {
                                assert(subgraph.adj(m) == subx.adj(m));
                            }
                        }
                    }
                    // degree mark stays within one less than the new node count
                    assert(subgraph.adj(c).len() <= if len0 == 0 { 0int } else { len0 });
                    assert(subgraph.adj(n).len() <= if len0 == 0 { 0int } else { len0 }) by {
                        lemma_filter_no_duplicates(snodes@.take(j + 1), pred);
                        lemma_take_no_dup(snodes@, j + 1);
                        let f = snodes@.take(j + 1).filter(pred);
                        lemma_no_dup_len(f);
                        clique0.lemma_node_seq_no_duplicates();
                        lemma_no_dup_len(clique0.node_seq());
                        assert(f.to_set().subset_of(clique0.nodes_set())) by {
                            assert forall|y: usize| f.to_set().contains(y)
                                implies clique0.nodes_set().contains(y) by {
                                lemma_filter_membership(snodes@.take(j + 1), pred, y);
                                let tk1 = snodes@.take(j + 1);
                                assert(tk1.contains(y));
                                let k = choose|k: int| 0 <= k < tk1.len() && tk1[k] == y;
                                assert(snodes@[k] == y);
                                assert(snodes@.contains(y));
                                assert(y != n);
                                assert(clique0.has_node(y));
                            }
                        }
                        vstd::set_lib::lemma_len_subset(f.to_set(), clique0.nodes_set());
                    }
                }
            } else {
                proof {
                    assert(!pred(c));
                    assert(subgraph.adj(n) == snodes@.take(j + 1).filter(pred));
                    assert forall|m: usize|
                        m != n && !(#[trigger] snodes@.take(j + 1).contains(m))
                            implies subgraph.adj(m) == clique0.adj(m) by {
                        Graph::lemma_contains_push(tkj, c, m);
                    }
                    if c != n {
                        assert(subgraph.adj(c) == clique0.adj(c)) by {
                            if !tkj.contains(c) {
                            }
                        }
                    }
                }
            }
            proof {
                assert forall|k: int|
                    0 <= k < j + 1 && snodes@[k] != n implies #[trigger] subgraph.adj(
                    snodes@[k]) == (if pred(snodes@[k]) {
                    clique0.adj(snodes@[k]).push(n)
                } else {
                    clique0.adj(snodes@[k])
                }) by {
                    let m = snodes@[k];
                    if k < j {
                        assert(m != c) by {
                            assert(snodes@[k] != snodes@[j as int]);
                        }
                        assert(subgraph.adj(m) == subx.adj(m) || m == c || m == n);
                        assert(subx.adj(m) == (if pred(m) {
                            clique0.adj(m).push(n)
                        } else {
                            clique0.adj(m)
                        }));
                    } else {
                        assert(m == c);
                    }
                }
            }
            j = j + 1;
        }
        // the accumulated subgraph now holds the candidate node set
        // `clique0 + n` together with exactly the induced edges
        proof {
            assert(snodes@.take(slen as int) =~= snodes@);
            assert(subgraph.adj(n) == snodes@.filter(pred));
            assert(induced_subgraph(*graph, subgraph)) by {
                assert forall|a: usize, b: usize|
                    #[trigger] subgraph.adj(a).contains(b)
                        <==> subgraph.has_node(a) && subgraph.has_node(b) && a != b
                            && graph.has_edge(a, b) by {
                    if a == n {
                        lemma_filter_membership(snodes@, pred, b);
                        if subgraph.adj(n).contains(b) {
                            assert(snodes@.contains(b) && pred(b));
                            assert(b != n);
                            assert(graph.adj(n).contains(b));
                            assert(graph.has_edge(n, b));
                        }
                        if subgraph.has_node(b) && b != n && graph.has_edge(n, b) {
                            assert(pred(b));
                            assert(snodes@.contains(b));
                        }
                    } else if subgraph.has_node(a) {
                        let k = choose|k: int| 0 <= k < snodes@.len() && snodes@[k] == a;
                        assert(subgraph.adj(a) == (if pred(a) {
                            clique0.adj(a).push(n)
                        } else {
                            clique0.adj(a)
                        }));
                        Graph::lemma_contains_push(clique0.adj(a), n, b);
                        if subgraph.adj(a).contains(b) {
                            if pred(a) && b == n {
                                assert(graph.adj(n).contains(a));
                                assert(graph.has_edge(a, n));
                            } else {
                                assert(clique0.adj(a).contains(b));
                            }
                        }
                        if subgraph.has_node(b) && a != b && graph.has_edge(a, b) {
                            if b == n {
                                assert(graph.adj(n).contains(a));
                                assert(pred(a));
                                assert(clique0.adj(a).push(n).contains(b)) by {
                                    Graph::lemma_contains_push(clique0.adj(a), n, n);
                                }
                            } else {
                                assert(clique0.adj(a).contains(b));
                            }
                        }
                    } else {
                        assert(!snodes@.contains(a));
                        subgraph.lemma_absent(a);
                    }
                }
            }
            assert(solver_candidate(*graph, subgraph));
            assert(subgraph.nodes_set() =~= clique0.nodes_set().insert(n));
        }
        let ghost sub_snap = subgraph;
        let rest = vstd::slice::slice_subrange(nodes, i + 1, len);
        let cloned = subgraph.clone();
        proof {
            assert(rest@ == nodes@.subrange(i + 1, len as int));
            assert(rest@.no_duplicates()) by {
                assert forall|p: int, q: int|
                    0 <= p < rest@.len() && 0 <= q < rest@.len() && p != q
                        implies rest@[p] != rest@[q] by {
                    assert(nodes@[i + 1 + p] != nodes@[i + 1 + q]);
                }
            }
            assert forall|k: int| 0 <= k < rest@.len()
                implies graph.has_node(#[trigger] rest@[k]) by {
                assert(rest@[k] == nodes@[i + 1 + k]);
            }
            assert forall|k: int| 0 <= k < rest@.len()
                implies !cloned.has_node(#[trigger] rest@[k]) by {
                assert(rest@[k] == nodes@[i + 1 + k]);
                assert(!clique0.has_node(nodes@[i + 1 + k]));
                assert(nodes@[i + 1 + k] != n) by {
                    assert(nodes@[i + 1 + k] != nodes@[i as int]);
                }
                assert(cloned.has_node(rest@[k]) == subgraph.has_node(rest@[k]));
            }
            assert(solver_candidate(*graph, cloned)) by {
                assert(cloned.node_seq() == subgraph.node_seq());
                assert(cloned.deg() == subgraph.deg());
                assert forall|m: usize| #[trigger] cloned.adj(m) == subgraph.adj(m) by {}
                assert(cloned.dedup()) by {
                    assert forall|m: usize| (#[trigger] cloned.adj(m)).no_duplicates() by {
                        assert(cloned.adj(m) == subgraph.adj(m));
                    }
                }
                assert(cloned.deg_covers()) by {
                    assert forall|m: usize| (#[trigger] cloned.adj(m)).len() <= cloned.deg() by {
                        assert(cloned.adj(m) == subgraph.adj(m));
                    }
                }
                assert(induced_subgraph(*graph, cloned)) by {
                    assert forall|m: usize| #[trigger] cloned.has_node(m)
                        implies graph.has_node(m) by {
                        assert(subgraph.has_node(m));
                    }
                    assert forall|a: usize, b: usize|
                        #[trigger] cloned.adj(a).contains(b)
                            <==> cloned.has_node(a) && cloned.has_node(b) && a != b
                                && graph.has_edge(a, b) by {
                        assert(cloned.adj(a) == subgraph.adj(a));
                        assert(cloned.has_node(a) == subgraph.has_node(a));
                        assert(cloned.has_node(b) == subgraph.has_node(b));
                    }
                }
            }
            assert(cloned.nodes_set() =~= subgraph.nodes_set());
        }
        let sol = backtracking(graph, rest, cloned);
        let sol_complete = sol.is_complete();
        let better = sol_complete && (best.is_empty() || sol.degree() >= best.degree());
        let ghost best0 = best;
        if better {
            best = sol;
        }
        proof {
            let full: Set<usize> = nodes@.to_set();
            let c0set = clique0.nodes_set();
            let restset = rest@.to_set();
            assert(restset =~= nodes@.skip(i + 1).to_set()) by {
                assert(rest@ =~= nodes@.skip(i + 1));
            }
            // the new best still satisfies the structural clauses
            assert(solver_candidate(*graph, best));
            if better {
                assert(best.complete());
                assert(c0set.subset_of(best.nodes_set())) by {
                    assert(cloned.nodes_set().subset_of(sol.nodes_set()));
                    assert(cloned.nodes_set() =~= c0set.insert(n));
                }
                assert(best.nodes_set().subset_of(c0set.union(full))) by {
                    assert(sol.nodes_set().subset_of(cloned.nodes_set().union(restset)));
                    assert(cloned.nodes_set() =~= c0set.insert(n));
                    assert(full.contains(n)) by {
                        assert(nodes@[i as int] == n);
                    }
                    assert forall|y: usize| restset.contains(y) implies full.contains(y) by {
                        let k = choose|k: int| 0 <= k < rest@.len() && rest@[k] == y;
                        assert(nodes@[i + 1 + k] == y);
                    }
                }
            }
            // maximality: every clique extension met so far is covered
            assert forall|s: Set<usize>|
                s.subset_of(full) && #[trigger] clique_in(*graph, c0set.union(s))
                    && !s.subset_of(nodes@.skip(i + 1).to_set())
                    implies best.complete() && c0set.union(s).len()
                        <= best.nodes_set().len() by {
                if !s.subset_of(nodes@.skip(i as int).to_set()) {
                    // handled by an earlier iteration
                    assert(best0.complete() && c0set.union(s).len() <= best0.nodes_set().len());
                    if better {
                        best0.lemma_node_seq_no_duplicates();
                        lemma_no_dup_len(best0.node_seq());
                        if best0.node_seq().len() == 0 {
                            assert(best0.nodes_set().len() == 0);
                            assert(c0set.union(s).len() <= best.nodes_set().len());
                        } else {
                            lemma_complete_deg(*graph, best0);
                            assert(sol.node_seq().len() > 0) by {
                                assert(sol.nodes_set().contains(n)) by {
                                    assert(cloned.nodes_set().contains(n));
                                }
                                if sol.node_seq().len() == 0 {
                                    assert(!sol.has_node(n));
                                }
                            }
                            lemma_complete_deg(*graph, sol);
                            assert(sol.deg() >= best0.deg());
                            assert(sol.nodes_set().len() >= best0.nodes_set().len());
                        }
                    }
                } else {
                    // the subsets whose earliest element is the current
                    // candidate are covered by this branch's recursion
                    assert(s.contains(n) && s.remove(n).subset_of(restset)) by {
                        let w = choose|w: usize| s.contains(w) && !nodes@.skip(
                            i + 1,
                        ).to_set().contains(w);
                        assert(nodes@.skip(i as int).to_set().contains(w));
                        let k = choose|k: int| 0 <= k < nodes@.skip(i as int).len()
                            && nodes@.skip(i as int)[k] == w;
                        assert(nodes@[i + k] == w);
                        assert(k == 0) by {
                            if k > 0 {
                                assert(nodes@.skip(i + 1)[k - 1] == w);
                                assert(nodes@.skip(i + 1).to_set().contains(w));
                            }
                        }
                        assert(w == n);
                        assert forall|y: usize| s.remove(n).contains(y)
                            implies restset.contains(y) by {
                            assert(nodes@.skip(i as int).to_set().contains(y));
                            let ky = choose|ky: int| 0 <= ky < nodes@.skip(i as int).len()
                                && nodes@.skip(i as int)[ky] == y;
                            assert(nodes@[i + ky] == y);
                            assert(ky != 0);
                            assert(nodes@.skip(i + 1)[ky - 1] == y);
                        }
                    }
                    let sp = s.remove(n);
                    assert(cloned.nodes_set().union(sp) =~= c0set.union(s)) by {
                        assert(cloned.nodes_set() =~= c0set.insert(n));
                    }
                    assert(clique_in(*graph, cloned.nodes_set().union(sp)));
                    assert(sol.complete() && cloned.nodes_set().union(sp).len()
                        <= sol.nodes_set().len());
                    if better {
                        assert(c0set.union(s).len() <= best.nodes_set().len());
                    } else {
                        // not taken: the previous best is at least as large
                        assert(sol_complete);
                        assert(best0.node_seq().len() > 0);
                        assert(sol.deg() < best0.deg());
                        assert(best0.complete()) by {
                            if !best0.complete() {
                                assert(!clique0.complete());
                                assert(clique0.complete()) by {
                                    assert forall|a: usize, b: usize|
                                        clique0.has_node(a) && clique0.has_node(b) && a != b
                                            implies #[trigger] clique0.adj(a).contains(b) by {
                                        assert(c0set.union(s).contains(a)) by {
                                            assert(c0set.contains(a));
                                        }
                                        assert(c0set.union(s).contains(b)) by {
                                            assert(c0set.contains(b));
                                        }
                                        assert(graph.has_edge(a, b));
                                    }
                                }
                            }
                        }
                        lemma_complete_deg(*graph, best0);
                        assert(sol.node_seq().len() > 0) by {
                            assert(sol.nodes_set().contains(n)) by {
                                assert(cloned.nodes_set().contains(n));
                            }
                            if sol.node_seq().len() == 0 {
                                assert(!sol.has_node(n));
                            }
                        }
                        lemma_complete_deg(*graph, sol);
                        assert(sol.nodes_set().len() < best0.nodes_set().len());
                        assert(c0set.union(s).len() <= best0.nodes_set().len());
                    }
                }
            }
        }
        let ghost subr = subgraph;
        subgraph.remove_node(n);
        proof {
            assert forall|m: usize| #[trigger] subgraph.adj(m) == clique0.adj(m) by {
                if m == n {
                    clique0.lemma_absent(n);
                } else {
                    assert(subgraph.adj(m) == Graph::remove_first_val(sub_snap.adj(m), n));
                    if sub_snap.has_node(m) {
                        assert(sub_snap.adj(m) == (if pred(m) {
                            clique0.adj(m).push(n)
                        } else {
                            clique0.adj(m)
                        })) by {
                            let k = choose|k: int| 0 <= k < snodes@.len() && snodes@[k] == m;
                            assert(snodes@[k] == m);
                        }
                        assert(!clique0.adj(m).contains(n)) by {
                            if clique0.adj(m).contains(n) {
                                assert(clique0.has_node(n));
                            }
                        }
                        if pred(m) {
                            Graph::lemma_remove_first_push(clique0.adj(m), n);
                        } else {
                            Graph::lemma_remove_first_props(clique0.adj(m), n);
                        }
                    } else {
                        assert(!clique0.has_node(m));
                        clique0.lemma_absent(m);
                        sub_snap.lemma_absent(m);
                        Graph::lemma_remove_first_props(Seq::<usize>::empty(), n);
                    }
                }
            }
            assert forall|m: usize| #[trigger] subgraph.has_node(m) == clique0.has_node(m) by {
                assert(subgraph.has_node(m) <==> (sub_snap.has_node(m) && m != n));
            }
            assert(subgraph.dedup()) by {
                assert forall|m: usize| (#[trigger] subgraph.adj(m)).no_duplicates() by {
                    assert(subgraph.adj(m) == clique0.adj(m));
                }
            }
            assert(subgraph.deg_covers()) by {
                assert forall|m: usize| (#[trigger] subgraph.adj(m)).len() <= subgraph.deg() by {
                    assert(subgraph.adj(m) == clique0.adj(m));
                    assert(sub_snap.adj(m).len() <= sub_snap.deg()) by {
                        assert(sub_snap.deg_covers());
                    }
                    assert(clique0.adj(m).len() <= sub_snap.adj(m).len()) by {
                        if m != n && sub_snap.has_node(m) && pred(m) {
                        }
                        if m == n {
                            clique0.lemma_absent(n);
                        }
                        if !sub_snap.has_node(m) {
                            clique0.lemma_absent(m);
                            sub_snap.lemma_absent(m);
                        }
                        if m != n && sub_snap.has_node(m) {
                            let k = choose|k: int| 0 <= k < snodes@.len() && snodes@[k] == m;
                            assert(sub_snap.adj(m) == (if pred(m) {
                                clique0.adj(m).push(n)
                            } else {
                                clique0.adj(m)
                            }));
                        }
                    }
                }
            }
        }
        i = i + 1;
    }
    proof {
        let c0set = clique0.nodes_set();
        assert forall|s: Set<usize>|
            s.subset_of(nodes@.to_set()) && #[trigger] clique_in(*graph, c0set.union(s))
                implies best.complete() && c0set.union(s).len() <= best.nodes_set().len() by {
            if s.subset_of(nodes@.skip(len as int).to_set()) {
                assert(nodes@.skip(len as int) =~= Seq::<usize>::empty());
                assert(Seq::<usize>::empty().to_set() =~= Set::<usize>::empty());
                assert(s =~= Set::<usize>::empty());
                assert(c0set.union(s) =~= c0set);
                assert(clique0.complete()) by {
                    assert forall|a: usize, b: usize|
                        clique0.has_node(a) && clique0.has_node(b) && a != b
                            implies #[trigger] clique0.adj(a).contains(b) by {
                        assert(c0set.contains(a) && c0set.contains(b));
                        assert(graph.has_edge(a, b));
                    }
                }
                assert(best.complete());
                vstd::seq_lib::seq_to_set_is_finite::<usize>(best.node_seq());
                vstd::set_lib::lemma_len_subset(c0set, best.nodes_set());
            }
        }
    }
    best
}


/// On an input that is already a complete graph the solver returns a clique
/// with the same node set and the same edges as the input.
pub proof fn lemma_solve_on_complete(g: Graph, r: Graph)
    requires
        g.wf(),
        g.mirrored(),
        g.loop_free(),
        clique_in(g, g.nodes_set()),
        solver_candidate(g, r),
        r.complete(),
        forall|s: Set<usize>| #[trigger] clique_in(g, s) ==> s.len() <= r.nodes_set().len(),
    ensures
        r.nodes_set() == g.nodes_set(),
        forall|a: usize, b: usize| #[trigger] r.has_edge(a, b) <==> g.has_edge(a, b),
{
    g.lemma_node_seq_no_duplicates();
    lemma_no_dup_len(g.node_seq());
    assert(g.nodes_set().len() <= r.nodes_set().len());
    assert(r.nodes_set().subset_of(g.nodes_set())) by {
        assert forall|y: usize| r.nodes_set().contains(y) implies g.nodes_set().contains(y) by {
            assert(r.has_node(y));
            assert(g.has_node(y));
        }
    }
    assert(r.nodes_set() =~= g.nodes_set()) by {
        if exists|x: usize| g.nodes_set().contains(x) && !r.nodes_set().contains(x) {
            let x = choose|x: usize| g.nodes_set().contains(x) && !r.nodes_set().contains(x);
            assert(r.nodes_set().subset_of(g.nodes_set().remove(x)));
            assert(g.nodes_set().remove(x).len() == g.nodes_set().len() - 1);
            vstd::set_lib::lemma_len_subset(r.nodes_set(), g.nodes_set().remove(x));
            assert(false);
        }
    }
    assert forall|a: usize, b: usize| #[trigger] r.has_edge(a, b) <==> g.has_edge(a, b) by {
        if r.has_edge(a, b) {
            assert(r.adj(a).contains(b));
            assert(g.has_edge(a, b));
        }
        if g.has_edge(a, b) {
            assert(g.adj(a).contains(b));
            assert(a != b) by {
                if a == b {
                    assert(g.adj(a).contains(a));
                }
            }
            assert(r.nodes_set().contains(a) && r.nodes_set().contains(b));
            assert(r.has_node(a) && r.has_node(b));
            assert(r.adj(a).contains(b) && r.adj(b).contains(a));
        }
    }
}

/// On a graph with nodes but not a single edge the solver returns a
/// single-node clique: no larger complete subgraph exists.
pub proof fn lemma_solve_on_edgeless(g: Graph, r: Graph)
    requires
        g.wf(),
        forall|m: usize| #[trigger] g.adj(m) == Seq::<usize>::empty(),
        g.node_seq().len() > 0,
        solver_candidate(g, r),
        r.complete(),
        r.node_seq().len() > 0,
    ensures
        r.node_seq().len() == 1,
        r.nodes_set().len() == 1,
{
    r.lemma_node_seq_no_duplicates();
    lemma_no_dup_len(r.node_seq());
    if r.node_seq().len() >= 2 {
        let a = r.node_seq()[0];
        let b = r.node_seq()[1];
        assert(r.has_node(a) && r.has_node(b));
        assert(a != b);
        assert(r.adj(a).contains(b));
        assert(g.has_edge(a, b));
        assert(g.adj(a).contains(b));
        assert(false);
    }
}


/// The subsets of chosen nodes that the search visits when it still holds
/// the accumulated set `p` and the candidate list `cs`, in visiting order:
/// each loop iteration adds one candidate and explores the strictly later
/// ones, so one completeness test is made per entry of this sequence.
pub open spec fn visited(p: Set<usize>, cs: Seq<usize>) -> Seq<Set<usize>>
    decreases cs.len(),
{
    if cs.len() == 0 {
        Seq::empty()
    } else {
        seq![p.insert(cs[0])] + visited(p.insert(cs[0]), cs.drop_first()) + visited(
            p,
            cs.drop_first(),
        )
    }
}

pub open spec fn pow2(n: nat) -> nat
    decreases n,
{
    if n == 0 {
        1
    } else {
        2 * pow2((n - 1) as nat)
    }
}

proof fn lemma_pow2_pos(n: nat)
    ensures
        pow2(n) >= 1,
    decreases n,
{
    if n > 0 {
        lemma_pow2_pos((n - 1) as nat);
    }
}

/// Over `n` remaining candidates the search visits `2^n - 1` subsets, one
/// completeness evaluation each.
pub proof fn lemma_search_visit_count(p: Set<usize>, cs: Seq<usize>)
    ensures
        visited(p, cs).len() == pow2(cs.len()) - 1,
    decreases cs.len(),
{
    lemma_pow2_pos(cs.len());
    if cs.len() > 0 {
        lemma_pow2_pos((cs.len() - 1) as nat);
        lemma_search_visit_count(p.insert(cs[0]), cs.drop_first());
        lemma_search_visit_count(p, cs.drop_first());
    }
}

/// The visited subsets are exactly the extensions of `p` by a nonempty
/// subset of the candidates.
pub proof fn lemma_search_visits_extensions(p: Set<usize>, cs: Seq<usize>, x: Set<usize>)
    ensures
        visited(p, cs).contains(x) <==> exists|s: Set<usize>|
            #[trigger] s.subset_of(cs.to_set()) && !(s =~= Set::<usize>::empty()) && x == p.union(
                s,
            ),
    decreases cs.len(),
{
    if cs.len() == 0 {
        if exists|s: Set<usize>|
            #[trigger] s.subset_of(cs.to_set()) && !(s =~= Set::<usize>::empty()) && x
                == p.union(s) {
            let s = choose|s: Set<usize>|
                #[trigger] s.subset_of(cs.to_set()) && !(s =~= Set::<usize>::empty()) && x
                    == p.union(s);
            assert(cs.to_set() =~= Set::<usize>::empty());
            assert(s =~= Set::<usize>::empty());
        }
    } else {
        let c0 = cs[0];
        let rest = cs.drop_first();
        let v = visited(p, cs);
        lemma_search_visits_extensions(p.insert(c0), rest, x);
        lemma_search_visits_extensions(p, rest, x);
        assert(cs.to_set() =~= rest.to_set().insert(c0)) by {
            assert forall|y: usize| cs.to_set().contains(y) implies rest.to_set().insert(
                c0,
            ).contains(y) by {
                let k = choose|k: int| 0 <= k < cs.len() && cs[k] == y;
                if k > 0 {
                    assert(rest[k - 1] == y);
                }
            }
            assert forall|y: usize| rest.to_set().contains(y) implies cs.to_set().contains(y) by {
                let k = choose|k: int| 0 <= k < rest.len() && rest[k] == y;
                assert(cs[k + 1] == y);
            }
        }
        if v.contains(x) {
            let k = choose|k: int| 0 <= k < v.len() && v[k] == x;
            if k == 0 {
                assert(x == p.insert(c0));
                let s = Set::<usize>::empty().insert(c0);
                assert(s.subset_of(cs.to_set()));
                assert(!(s =~= Set::<usize>::empty())) by {
                    assert(s.contains(c0));
                }
                assert(x == p.union(s)) by {
                    assert(p.union(s) =~= p.insert(c0));
                }
                assert(exists|t: Set<usize>|
                    #[trigger] t.subset_of(cs.to_set()) && !(t =~= Set::<usize>::empty()) && x
                        == p.union(t));
            } else if k < 1 + visited(p.insert(c0), rest).len() {
                assert(visited(p.insert(c0), rest)[k - 1] == x);
                assert(visited(p.insert(c0), rest).contains(x));
                let s = choose|s: Set<usize>|
                    #[trigger] s.subset_of(rest.to_set()) && !(s =~= Set::<usize>::empty()) && x
                        == p.insert(c0).union(s);
                let s2 = s.insert(c0);
                assert(s2.subset_of(cs.to_set()));
                assert(!(s2 =~= Set::<usize>::empty())) by {
                    assert(s2.contains(c0));
                }
                assert(x == p.union(s2)) by {
                    assert(p.insert(c0).union(s) =~= p.union(s.insert(c0)));
                }
                assert(exists|t: Set<usize>|
                    #[trigger] t.subset_of(cs.to_set()) && !(t =~= Set::<usize>::empty()) && x
                        == p.union(t));
            } else {
                let k2 = k - 1 - visited(p.insert(c0), rest).len();
                assert(visited(p, rest)[k2] == x);
                assert(visited(p, rest).contains(x));
                let s = choose|s: Set<usize>|
                    #[trigger] s.subset_of(rest.to_set()) && !(s =~= Set::<usize>::empty()) && x
                        == p.union(s);
                assert(s.subset_of(cs.to_set()));
                assert(exists|t: Set<usize>|
                    #[trigger] t.subset_of(cs.to_set()) && !(t =~= Set::<usize>::empty()) && x
                        == p.union(t));
            }
        }
        if exists|s: Set<usize>|
            #[trigger] s.subset_of(cs.to_set()) && !(s =~= Set::<usize>::empty()) && x
                == p.union(s) {
            let s = choose|s: Set<usize>|
                #[trigger] s.subset_of(cs.to_set()) && !(s =~= Set::<usize>::empty()) && x
                    == p.union(s);
            if s.contains(c0) {
                let s1 = s.remove(c0);
                if s1 =~= Set::<usize>::empty() {
                    assert(x == p.insert(c0)) by {
                        assert(s =~= Set::<usize>::empty().insert(c0));
                        assert(p.union(s) =~= p.insert(c0));
                    }
                    assert(v[0] == x);
                    assert(v.contains(x));
                } else {
                    assert(s1.subset_of(rest.to_set())) by {
                        assert forall|y: usize| s1.contains(y) implies rest.to_set().contains(
                            y,
                        ) by {
                            assert(cs.to_set().contains(y) && y != c0);
                        }
                    }
                    assert(x == p.insert(c0).union(s1)) by {
                        assert(p.insert(c0).union(s1) =~= p.union(s));
                    }
                    assert(visited(p.insert(c0), rest).contains(x));
                    let k = choose|k: int|
                        0 <= k < visited(p.insert(c0), rest).len() && visited(
                            p.insert(c0),
                            rest,
                        )[k] == x;
                    assert(v[1 + k] == x);
                    assert(v.contains(x));
                }
            } else {
                assert(s.subset_of(rest.to_set())) by {
                    assert forall|y: usize| s.contains(y) implies rest.to_set().contains(y) by {
                        assert(cs.to_set().contains(y) && y != c0);
                    }
                }
                assert(visited(p, rest).contains(x));
                let k = choose|k: int|
                    0 <= k < visited(p, rest).len() && visited(p, rest)[k] == x;
                assert(v[1 + visited(p.insert(c0), rest).len() + k] == x);
                assert(v.contains(x));
            }
        }
    }
}

/// The search never revisits a subset: over duplicate-free candidates that
/// are disjoint from the accumulated set, the visited subsets are pairwise
/// distinct, so each nonempty subset is tested for completeness exactly once.
pub proof fn lemma_search_never_revisits(p: Set<usize>, cs: Seq<usize>)
    requires
        cs.no_duplicates(),
        forall|k: int| 0 <= k < cs.len() ==> !p.contains(#[trigger] cs[k]),
    ensures
        visited(p, cs).no_duplicates(),
    decreases cs.len(),
{
    if cs.len() > 0 {
        let c0 = cs[0];
        let rest = cs.drop_first();
        let v = visited(p, cs);
        let b = visited(p.insert(c0), rest);
        let c = visited(p, rest);
        assert(rest.no_duplicates());
        assert forall|k: int| 0 <= k < rest.len() implies !p.insert(c0).contains(
            #[trigger] rest[k]) by {
            assert(rest[k] == cs[k + 1]);
            assert(cs[k + 1] != cs[0]);
        }
        assert forall|k: int| 0 <= k < rest.len() implies !p.contains(#[trigger] rest[k]) by {
            assert(rest[k] == cs[k + 1]);
        }
        lemma_search_never_revisits(p.insert(c0), rest);
        lemma_search_never_revisits(p, rest);
        assert(!rest.to_set().contains(c0)) by {
            if rest.to_set().contains(c0) {
                let k = choose|k: int| 0 <= k < rest.len() && rest[k] == c0;
                assert(cs[k + 1] == cs[0]);
            }
        }
        // members of the first branch hold c0; members of the second do not
        assert forall|k: int| 0 <= k < b.len() implies (#[trigger] b[k]).contains(c0)
            && b[k] != p.insert(c0) by {
            assert(b.contains(b[k]));
            lemma_search_visits_extensions(p.insert(c0), rest, b[k]);
            let s = choose|s: Set<usize>|
                #[trigger] s.subset_of(rest.to_set()) && !(s =~= Set::<usize>::empty()) && b[k]
                    == p.insert(c0).union(s);
            assert(b[k].contains(c0));
            let w = choose|w: usize| s.contains(w);
            assert(b[k].contains(w));
            assert(!p.insert(c0).contains(w)) by {
                assert(rest.to_set().contains(w));
            }
        }
        assert forall|k: int| 0 <= k < c.len() implies !(#[trigger] c[k]).contains(c0) by {
            assert(c.contains(c[k]));
            lemma_search_visits_extensions(p, rest, c[k]);
            let s = choose|s: Set<usize>|
                #[trigger] s.subset_of(rest.to_set()) && !(s =~= Set::<usize>::empty()) && c[k]
                    == p.union(s);
            if c[k].contains(c0) {
                assert(p.contains(c0) || s.contains(c0));
                assert(!p.contains(c0));
                assert(rest.to_set().contains(c0));
            }
        }
        assert(p.insert(c0).contains(c0));
        assert forall|x: int, y: int|
            0 <= x < v.len() && 0 <= y < v.len() && x != y implies v[x] != v[y] by {
            let bl = b.len();
            if x == 0 || y == 0 {
                let z: int = if x == 0 { y } else { x };
                if 1 <= z < 1 + bl {
                    assert(v[z] == b[z - 1]);
                    assert(b[z - 1] != p.insert(c0));
                } else {
                    assert(v[z] == c[z - 1 - bl]);
                    assert(!c[z - 1 - bl].contains(c0));
                }
            } else if x < 1 + bl && y < 1 + bl {
                assert(v[x] == b[x - 1] && v[y] == b[y - 1]);
            } else if x >= 1 + bl && y >= 1 + bl {
                assert(v[x] == c[x - 1 - bl] && v[y] == c[y - 1 - bl]);
            } else {
                let xb: int = if x < 1 + bl { x } else { y };
                let yc: int = if x < 1 + bl { y } else { x };
                assert(v[xb] == b[xb - 1] && v[yc] == c[yc - 1 - bl]);
                assert(b[xb - 1].contains(c0) && !c[yc - 1 - bl].contains(c0));
            }
        }
    }
}

} // verus!
