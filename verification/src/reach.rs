use vstd::prelude::*;
use vstd::set_lib::lemma_len_subset;
use crate::table::seq_has;

verus! {

broadcast use vstd::std_specs::vec::axiom_spec_len;

/// Some edge of `es` leads from `a` to `b`.
#[verifier::opaque]
pub open spec fn edge_of(es: Seq<(u64, u64)>, a: u64, b: u64) -> bool {
    exists|i: int| 0 <= i < es.len() && #[trigger] es[i] == (a, b)
}

/// Consecutive nodes of `p` are joined by edges of `es`.
pub open spec fn is_path(es: Seq<(u64, u64)>, p: Seq<u64>) -> bool {
    forall|i: int| 0 <= i < p.len() - 1 ==> #[trigger] edge_of(es, p[i], p[i + 1])
}

/// `b` is reachable from `a` along the edges of `es`.
#[verifier::opaque]
pub open spec fn reaches(es: Seq<(u64, u64)>, a: u64, b: u64) -> bool {
    exists|p: Seq<u64>| #[trigger] is_path(es, p) && p.len() > 0 && p.first() == a && p.last() == b
}

/// `b` is reachable from one of the seeds.
pub open spec fn reachable_from(es: Seq<(u64, u64)>, seeds: Seq<u64>, b: u64) -> bool {
    exists|s: u64| #[trigger] seeds.contains(s) && reaches(es, s, b)
}

/// Every node reaches itself, by the one-node path.
pub proof fn lemma_reach_self(es: Seq<(u64, u64)>, a: u64)
    ensures
        reaches(es, a, a),
{
    reveal(reaches);
    let p = seq![a];
    assert(is_path(es, p));
}

/// Reachability extends along one further edge.
pub proof fn lemma_reach_step(es: Seq<(u64, u64)>, a: u64, m: u64, b: u64)
    requires
        reaches(es, a, m),
        edge_of(es, m, b),
    ensures
        reaches(es, a, b),
{
    reveal(reaches);
    let p = choose|p: Seq<u64>| #[trigger] is_path(es, p) && p.len() > 0 && p.first() == a
        && p.last() == m;
    let q = p.push(b);
    assert forall|i: int| 0 <= i < q.len() - 1 implies #[trigger] edge_of(es, q[i], q[i + 1]) by {
        if i < p.len() - 1 {
            assert(edge_of(es, p[i], p[i + 1]));
            assert(q[i] == p[i] && q[i + 1] == p[i + 1]);
        } else {
            assert(q[i] == m && q[i + 1] == b);
        }
    }
    assert(is_path(es, q) && q.len() > 0 && q.first() == a && q.last() == b);
}

/// Walking reversed edges reaches in the opposite direction.
pub proof fn lemma_reach_reverse(es: Seq<(u64, u64)>, rs: Seq<(u64, u64)>, a: u64, b: u64)
    requires
        rs.len() == es.len(),
        forall|i: int| 0 <= i < es.len() ==> #[trigger] rs[i] == (es[i].1, es[i].0),
        reaches(es, a, b),
    ensures
        reaches(rs, b, a),
{
    reveal(reaches);
    let p = choose|p: Seq<u64>| #[trigger] is_path(es, p) && p.len() > 0 && p.first() == a
        && p.last() == b;
    let n = p.len() as int;
    let q = Seq::new(p.len(), |i: int| p[n - 1 - i]);
    assert forall|i: int| 0 <= i < q.len() - 1 implies #[trigger] edge_of(rs, q[i], q[i + 1]) by {
        reveal(edge_of);
        let j = n - 2 - i;
        assert(edge_of(es, p[j], p[j + 1]));
        let w = choose|w: int| 0 <= w < es.len() && #[trigger] es[w] == (p[j], p[j + 1]);
        assert(rs[w] == (p[j + 1], p[j]));
        assert(q[i] == p[j + 1] && q[i + 1] == p[j]);
    }
    assert(is_path(rs, q) && q.len() > 0 && q.first() == b && q.last() == a);
}

/// Reachability is transitive: paths compose end to end.
pub proof fn lemma_reach_trans(es: Seq<(u64, u64)>, a: u64, b: u64, c: u64)
    requires
        reaches(es, a, b),
        reaches(es, b, c),
    ensures
        reaches(es, a, c),
{
    reveal(reaches);
    let p = choose|p: Seq<u64>| #[trigger] is_path(es, p) && p.len() > 0 && p.first() == a
        && p.last() == b;
    let q = choose|q: Seq<u64>| #[trigger] is_path(es, q) && q.len() > 0 && q.first() == b
        && q.last() == c;
    if q.len() == 1 {
        assert(b == c);
    } else {
        let r = p + q.skip(1);
        let pl = p.len() as int;
        assert(r.len() == pl + q.len() - 1);
        assert forall|j: int| 0 <= j < r.len() - 1 implies #[trigger] edge_of(es, r[j], r[j + 1]) by {
            if j < pl - 1 {
                assert(r[j] == p[j] && r[j + 1] == p[j + 1]);
                assert(edge_of(es, p[j], p[j + 1]));
            } else if j == pl - 1 {
                assert(r[j] == p[pl - 1] && p[pl - 1] == b && q[0] == b);
                let z: int = 0;
                assert(r[j + 1] == q.skip(1)[z] && q.skip(1)[z] == q[z + 1]);
                assert(edge_of(es, q[z], q[z + 1]));
            } else {
                let w = j - pl + 1;
                assert(r[j] == q.skip(1)[j - pl] && q.skip(1)[j - pl] == q[w]);
                assert(r[j + 1] == q.skip(1)[j + 1 - pl] && q.skip(1)[j + 1 - pl] == q[w + 1]);
                assert(edge_of(es, q[w], q[w + 1]));
            }
        }
        assert(is_path(es, r) && r.len() > 0 && r.first() == a && r.last() == c);
    }
}

/// Any segment of a path joins its endpoints.
pub proof fn lemma_path_segment(es: Seq<(u64, u64)>, p: Seq<u64>, i: int, j: int)
    requires
        is_path(es, p),
        0 <= i <= j < p.len(),
    ensures
        reaches(es, p[i], p[j]),
{
    reveal(reaches);
    let q = p.subrange(i, j + 1);
    assert forall|w: int| 0 <= w < q.len() - 1 implies #[trigger] edge_of(es, q[w], q[w + 1]) by {
        let z = i + w;
        assert(edge_of(es, p[z], p[z + 1]));
        assert(q[w] == p[z] && q[w + 1] == p[z + 1]);
    }
    assert(is_path(es, q) && q.len() > 0 && q.first() == p[i] && q.last() == p[j]);
}

/// A set of nodes closed under edge successors holds the whole of every path
/// that starts inside it.
proof fn lemma_closed_path(es: Seq<(u64, u64)>, visited: Seq<u64>, p: Seq<u64>)
    requires
        is_path(es, p),
        p.len() > 0,
        visited.contains(p.first()),
        forall|v: u64, u: u64| visited.contains(v) && #[trigger] edge_of(es, v, u)
            ==> visited.contains(u),
    ensures
        visited.contains(p.last()),
    decreases p.len(),
{
    if p.len() > 1 {
        let q = p.drop_last();
        assert forall|i: int| 0 <= i < q.len() - 1 implies #[trigger] edge_of(es, q[i], q[i + 1]) by {
            assert(edge_of(es, p[i], p[i + 1]));
        }
        assert(q.first() == p.first());
        lemma_closed_path(es, visited, q);
        let j = p.len() - 2;
        assert(edge_of(es, p[j], p[j + 1]));
        assert(q.last() == p[j] && p.last() == p[j + 1]);
    }
}

proof fn lemma_no_dup_in_seq(s: Seq<u64>, t: Seq<u64>)
    requires
        s.no_duplicates(),
        forall|j: int| 0 <= j < s.len() ==> t.contains(#[trigger] s[j]),
    ensures
        s.len() <= t.len(),
{
    broadcast use vstd::seq_lib::seq_to_set_is_finite;

    s.unique_seq_to_set();
    assert forall|x: u64| s.to_set().contains(x) implies t.to_set().contains(x) by {
        assert(s.contains(x));
        let j = choose|j: int| 0 <= j < s.len() && s[j] == x;
        assert(t.contains(s[j]));
    }
    assert(s.to_set().subset_of(t.to_set()));
    t.lemma_cardinality_of_set();
    lemma_len_subset(s.to_set(), t.to_set());
}

/// Collects, by breadth-first traversal, exactly the nodes reachable from the
/// seeds along the given edges; every node is listed once.
#[verifier::rlimit(100)]
#[verifier::loop_isolation(true)]
pub fn bfs(edges: &Vec<(u64, u64)>, seeds: &Vec<u64>) -> (r: Vec<u64>)
    ensures
        r@.no_duplicates(),
        forall|b: u64| r@.contains(b) <==> reachable_from(edges@, seeds@, b),
{
    let ghost uni = seeds@ + edges@.map_values(|e: (u64, u64)| e.1);
    let mut visited: Vec<u64> = Vec::new();
    let mut queue: Vec<u64> = Vec::new();
    let mut qi: usize = 0;
    let mut i: usize = 0;
    while i < seeds.len()
        invariant
            0 <= i <= seeds@.len(),
            queue@ == seeds@.take(i as int),
        decreases seeds@.len() - i,
    {
        queue.push(seeds[i]);
        proof {
            assert(queue@ =~= seeds@.take(i + 1 as int));
        }
        i = i + 1;
    }
    proof {
        assert(queue@ =~= seeds@);
        assert forall|j: int| 0 <= j < queue@.len() implies
            reachable_from(edges@, seeds@, #[trigger] queue@[j]) by {
            assert(seeds@.contains(queue@[j]));
            lemma_reach_self(edges@, queue@[j]);
        }
        assert forall|j: int| 0 <= j < queue@.len() implies uni.contains(#[trigger] queue@[j]) by {
            assert(uni[j] == queue@[j]);
        }
    }
    while qi < queue.len()
        invariant
            uni == seeds@ + edges@.map_values(|ee: (u64, u64)| ee.1),
            qi <= queue@.len(),
            visited@.no_duplicates(),
            visited@.len() <= uni.len(),
            forall|j: int| 0 <= j < visited@.len() ==> uni.contains(#[trigger] visited@[j]),
            forall|j: int| 0 <= j < queue@.len() ==> uni.contains(#[trigger] queue@[j]),
            forall|j: int| 0 <= j < visited@.len() ==>
                reachable_from(edges@, seeds@, #[trigger] visited@[j]),
            forall|j: int| 0 <= j < queue@.len() ==>
                reachable_from(edges@, seeds@, #[trigger] queue@[j]),
            forall|s: u64| #[trigger] seeds@.contains(s) ==> visited@.contains(s)
                || exists|j: int| qi as int <= j < queue@.len() && queue@[j] == s,
            forall|v: u64, u: u64| visited@.contains(v) && #[trigger] edge_of(edges@, v, u)
                ==> visited@.contains(u)
                || exists|j: int| qi as int <= j < queue@.len() && queue@[j] == u,
        decreases uni.len() - visited@.len(), queue@.len() - qi,
    {
        let x = queue[qi];
        qi = qi + 1;
        if !seq_has(&visited, x) {
            let ghost snapv = visited@;
            let ghost snapq = queue@;
            visited.push(x);
            proof {
                lemma_no_dup_in_seq(visited@, uni);
            }
            let mut e: usize = 0;
            while e < edges.len()
                invariant
                    uni == seeds@ + edges@.map_values(|ee: (u64, u64)| ee.1),
                    reachable_from(edges@, seeds@, x),
                    uni.contains(x),
                    0 <= e <= edges@.len(),
                    visited@ == snapv.push(x),
                    qi <= queue@.len(),
                    snapq.len() <= queue@.len(),
                    forall|j: int| 0 <= j < snapq.len() ==> #[trigger] queue@[j] == snapq[j],
                    forall|j: int| 0 <= j < queue@.len() ==> uni.contains(#[trigger] queue@[j]),
                    forall|j: int| 0 <= j < queue@.len() ==>
                        reachable_from(edges@, seeds@, #[trigger] queue@[j]),
                    forall|i2: int| 0 <= i2 < e && (#[trigger] edges@[i2]).0 == x ==>
                        exists|j: int| qi as int <= j < queue@.len() && queue@[j] == edges@[i2].1,
                decreases edges@.len() - e,
            {
                let ghost qpre = queue@;
                let ed = edges[e];
                if ed.0 == x {
                    queue.push(ed.1);
                    proof {
                        let j = queue@.len() - 1;
                        assert(queue@[j] == ed.1);
                        assert(uni.contains(ed.1)) by {
                            assert(uni[seeds@.len() + e as int] == edges@[e as int].1);
                        }
                        assert(reachable_from(edges@, seeds@, ed.1)) by {
                            reveal(edge_of);
                            let s = choose|s: u64| #[trigger] seeds@.contains(s) && reaches(edges@, s, x);
                            assert(edges@[e as int] == (x, ed.1));
                            assert(edge_of(edges@, x, ed.1));
                            lemma_reach_step(edges@, s, x, ed.1);
                        }
                    }
                }
                proof {
                    assert forall|i2: int| 0 <= i2 < e + 1 && (#[trigger] edges@[i2]).0 == x implies
                        exists|j: int| qi as int <= j < queue@.len() && queue@[j] == edges@[i2].1 by {
                        if i2 < e {
                            let j = choose|j: int| qi as int <= j < qpre.len() && qpre[j] == edges@[i2].1;
                            assert(queue@[j] == edges@[i2].1);
                        } else {
                            let j = queue@.len() - 1;
                            assert(queue@[j] == edges@[i2].1);
                        }
                    }
                }
                e = e + 1;
            }
            proof {
                // every obligation of the enlarged visited set is met
                assert forall|v: u64, u: u64| visited@.contains(v) && #[trigger] edge_of(edges@, v, u)
                    implies visited@.contains(u)
                    || exists|j: int| qi as int <= j < queue@.len() && queue@[j] == u by {
                    if v == x {
                        reveal(edge_of);
                        let i2 = choose|i2: int| 0 <= i2 < edges@.len() && #[trigger] edges@[i2] == (v, u);
                        assert(edges@[i2].0 == x && edges@[i2].1 == u);
                    } else {
                        assert(snapv.contains(v)) by {
                            let j = choose|j: int| 0 <= j < visited@.len() && visited@[j] == v;
                            assert(snapv[j] == v);
                        }
                        if !snapv.contains(u) {
                            let j = choose|j: int| qi as int - 1 <= j < snapq.len() && snapq[j] == u;
                            if j >= qi as int {
                                assert(queue@[j] == u);
                            } else {
                                assert(u == x);
                                assert(visited@[visited@.len() - 1] == x);
                            }
                        } else {
                            let j = choose|j: int| 0 <= j < snapv.len() && snapv[j] == u;
                            assert(visited@[j] == u);
                        }
                    }
                }
                assert forall|s: u64| #[trigger] seeds@.contains(s) implies visited@.contains(s)
                    || exists|j: int| qi as int <= j < queue@.len() && queue@[j] == s by {
                    if !snapv.contains(s) {
                        let j = choose|j: int| qi as int - 1 <= j < snapq.len() && snapq[j] == s;
                        if j >= qi as int {
                            assert(queue@[j] == s);
                        } else {
                            assert(s == x);
                            assert(visited@[visited@.len() - 1] == x);
                        }
                    } else {
                        let j = choose|j: int| 0 <= j < snapv.len() && snapv[j] == s;
                        assert(visited@[j] == s);
                    }
                }
                assert forall|j: int| 0 <= j < visited@.len() implies
                    reachable_from(edges@, seeds@, #[trigger] visited@[j])
                    && uni.contains(visited@[j]) by {
                    if j == visited@.len() - 1 {
                        assert(visited@[j] == x);
                    } else {
                        assert(visited@[j] == snapv[j]);
                    }
                }
            }
        }
    }
    proof {
        assert forall|b: u64| reachable_from(edges@, seeds@, b) implies visited@.contains(b) by {
            reveal(reaches);
            let s = choose|s: u64| #[trigger] seeds@.contains(s) && reaches(edges@, s, b);
            let p = choose|p: Seq<u64>| #[trigger] is_path(edges@, p) && p.len() > 0
                && p.first() == s && p.last() == b;
            assert(visited@.contains(s));
            lemma_closed_path(edges@, visited@, p);
        }
        assert forall|b: u64| visited@.contains(b) implies reachable_from(edges@, seeds@, b) by {
            let j = choose|j: int| 0 <= j < visited@.len() && visited@[j] == b;
        }
    }
    visited
}

} // verus!
