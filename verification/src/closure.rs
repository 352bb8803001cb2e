//! Transitive closure over a dependency graph: the set of names reachable
//! from a root set by following directed edges.
use vstd::prelude::*;

use crate::graph::DepGraph;
use crate::names::contains_name;
use crate::names::lemma_name_set_push;
use crate::names::name_set;

verus! {

/// Consecutive entries of `p` are directed edges of `g`.
pub open spec fn is_walk(g: Map<Seq<char>, Set<Seq<char>>>, p: Seq<Seq<char>>) -> bool {
    forall|i: int|
        0 <= i < p.len() - 1 ==> g.dom().contains(#[trigger] p[i]) && g[p[i]].contains(p[i + 1])
}

/// `x` is reachable in `g` from the root set (every root reaches itself).
pub open spec fn reaches(g: Map<Seq<char>, Set<Seq<char>>>, roots: Set<Seq<char>>, x: Seq<char>) -> bool {
    exists|p: Seq<Seq<char>>|
        #![auto]
        p.len() > 0 && roots.contains(p[0]) && p.last() == x && is_walk(g, p)
}

/// The root set united with every name a directed walk of `g` reaches from it.
pub open spec fn reach_set(g: Map<Seq<char>, Set<Seq<char>>>, roots: Set<Seq<char>>) -> Set<
    Seq<char>,
> {
    Set::new(|x: Seq<char>| reaches(g, roots, x))
}

/// `k` is closed under the edges of `g`.
pub open spec fn closed_under(g: Map<Seq<char>, Set<Seq<char>>>, k: Set<Seq<char>>) -> bool {
    forall|x: Seq<char>, y: Seq<char>|
        k.contains(x) && g.dom().contains(x) && #[trigger] g[x].contains(y) ==> k.contains(y)
}

/// Every root reaches itself.
pub proof fn lemma_root_reaches(g: Map<Seq<char>, Set<Seq<char>>>, roots: Set<Seq<char>>, x: Seq<char>)
    requires
        roots.contains(x),
    ensures
        reaches(g, roots, x),
{
    let p = seq![x];
    assert(p.len() > 0 && roots.contains(p[0]) && p.last() == x && is_walk(g, p));
}

/// Reachability follows edges.
pub proof fn lemma_reaches_step(
    g: Map<Seq<char>, Set<Seq<char>>>,
    roots: Set<Seq<char>>,
    x: Seq<char>,
    y: Seq<char>,
)
    requires
        reaches(g, roots, x),
        g.dom().contains(x),
        g[x].contains(y),
    ensures
        reaches(g, roots, y),
{
    let p = choose|p: Seq<Seq<char>>|
        #![auto]
        p.len() > 0 && roots.contains(p[0]) && p.last() == x && is_walk(g, p);
    let q = p.push(y);
    assert(q.last() == y);
    assert forall|i: int| 0 <= i < q.len() - 1 implies g.dom().contains(#[trigger] q[i])
        && g[q[i]].contains(q[i + 1]) by {
        if i < p.len() - 1 {
            assert(q[i] == p[i]);
            assert(q[i + 1] == p[i + 1]);
            assert(g.dom().contains(p[i]) && g[p[i]].contains(p[i + 1]));
        } else {
            assert(q[i] == p.last());
        }
    }
    assert(q.len() > 0 && roots.contains(q[0]) && q.last() == y && is_walk(g, q));
}

/// Each name a walk passes through is reachable.
pub proof fn lemma_walk_prefix_reaches(
    g: Map<Seq<char>, Set<Seq<char>>>,
    roots: Set<Seq<char>>,
    p: Seq<Seq<char>>,
    i: int,
)
    requires
        p.len() > 0,
        roots.contains(p[0]),
        is_walk(g, p),
        0 <= i < p.len(),
    ensures
        reaches(g, roots, p[i]),
{
    let q = p.take(i + 1);
    assert forall|j: int| 0 <= j < q.len() - 1 implies g.dom().contains(#[trigger] q[j])
        && g[q[j]].contains(q[j + 1]) by {
        assert(q[j] == p[j]);
        assert(q[j + 1] == p[j + 1]);
        assert(g.dom().contains(p[j]) && g[p[j]].contains(p[j + 1]));
    }
    assert(q.len() > 0 && roots.contains(q[0]) && q.last() == p[i] && is_walk(g, q));
}

/// A walk from a root stays inside any edge-closed superset of the roots.
proof fn lemma_walk_in_closed(
    g: Map<Seq<char>, Set<Seq<char>>>,
    roots: Set<Seq<char>>,
    k: Set<Seq<char>>,
    p: Seq<Seq<char>>,
)
    requires
        roots.subset_of(k),
        closed_under(g, k),
        p.len() > 0,
        roots.contains(p[0]),
        is_walk(g, p),
    ensures
        k.contains(p.last()),
    decreases p.len(),
{
    if p.len() == 1 {
        assert(k.contains(p[0]));
    } else {
        let q = p.drop_last();
        assert forall|j: int| 0 <= j < q.len() - 1 implies g.dom().contains(#[trigger] q[j])
            && g[q[j]].contains(q[j + 1]) by {
            assert(q[j] == p[j]);
            assert(q[j + 1] == p[j + 1]);
            assert(g.dom().contains(p[j]) && g[p[j]].contains(p[j + 1]));
        }
        lemma_walk_in_closed(g, roots, k, q);
        let n = p.len() - 2;
        assert(g.dom().contains(p[n]) && g[p[n]].contains(p[n + 1]));
        assert(k.contains(p.last()));
    }
}

/// The reach set is exactly the least edge-closed superset of the roots: it
/// holds the roots, follows every edge, and lies inside any other set that
/// does both.
pub proof fn lemma_reach_set_characterization(
    g: Map<Seq<char>, Set<Seq<char>>>,
    roots: Set<Seq<char>>,
)
    ensures
        roots.subset_of(reach_set(g, roots)),
        closed_under(g, reach_set(g, roots)),
        forall|k: Set<Seq<char>>|
            roots.subset_of(k) && #[trigger] closed_under(g, k) ==> reach_set(g, roots).subset_of(
                k,
            ),
{
    assert forall|x: Seq<char>| roots.contains(x) implies reach_set(g, roots).contains(x) by {
        lemma_root_reaches(g, roots, x);
    }
    assert forall|x: Seq<char>, y: Seq<char>|
        reach_set(g, roots).contains(x) && g.dom().contains(x) && #[trigger] g[x].contains(
            y,
        ) implies reach_set(g, roots).contains(y) by {
        lemma_reaches_step(g, roots, x, y);
    }
    assert forall|k: Set<Seq<char>>|
        roots.subset_of(k) && #[trigger] closed_under(g, k) implies reach_set(
        g,
        roots,
    ).subset_of(k) by {
        assert forall|x: Seq<char>| reach_set(g, roots).contains(x) implies k.contains(x) by {
            let p = choose|p: Seq<Seq<char>>|
                #![auto]
                p.len() > 0 && roots.contains(p[0]) && p.last() == x && is_walk(g, p);
            lemma_walk_in_closed(g, roots, k, p);
        }
    }
}

/// The subgraph of `g` induced by `k`: the nodes of `k`, each keeping only
/// its edges into `k`.
pub open spec fn restrict_graph(g: Map<Seq<char>, Set<Seq<char>>>, k: Set<Seq<char>>) -> Map<
    Seq<char>,
    Set<Seq<char>>,
> {
    Map::new(
        |x: Seq<char>| g.dom().contains(x) && k.contains(x),
        |x: Seq<char>| g[x].intersect(k),
    )
}

/// A reach set is a fixed point: over the subgraph its own computation
/// induces, the same roots reach exactly the same set again. Reducing an
/// already-reduced graph changes nothing.
pub proof fn lemma_reach_set_fixed_point(g: Map<Seq<char>, Set<Seq<char>>>, roots: Set<Seq<char>>)
    ensures
        reach_set(restrict_graph(g, reach_set(g, roots)), roots) == reach_set(g, roots),
{
    let kk = reach_set(g, roots);
    let g2 = restrict_graph(g, kk);
    assert forall|x: Seq<char>| reach_set(g2, roots).contains(x) implies kk.contains(x) by {
        let p = choose|p: Seq<Seq<char>>|
            #![auto]
            p.len() > 0 && roots.contains(p[0]) && p.last() == x && is_walk(g2, p);
        assert forall|i: int| 0 <= i < p.len() - 1 implies g.dom().contains(#[trigger] p[i])
            && g[p[i]].contains(p[i + 1]) by {
            assert(g2.dom().contains(p[i]) && g2[p[i]].contains(p[i + 1]));
        }
        assert(p.len() > 0 && roots.contains(p[0]) && p.last() == x && is_walk(g, p));
    }
    assert forall|x: Seq<char>| kk.contains(x) implies reach_set(g2, roots).contains(x) by {
        let p = choose|p: Seq<Seq<char>>|
            #![auto]
            p.len() > 0 && roots.contains(p[0]) && p.last() == x && is_walk(g, p);
        assert forall|i: int| 0 <= i < p.len() - 1 implies g2.dom().contains(#[trigger] p[i])
            && g2[p[i]].contains(p[i + 1]) by {
            assert(g.dom().contains(p[i]) && g[p[i]].contains(p[i + 1]));
            lemma_walk_prefix_reaches(g, roots, p, i);
            lemma_walk_prefix_reaches(g, roots, p, i + 1);
            assert(kk.contains(p[i]) && kk.contains(p[i + 1]));
        }
        assert(p.len() > 0 && roots.contains(p[0]) && p.last() == x && is_walk(g2, p));
    }
    assert(reach_set(g2, roots) =~= kk);
}

/// A cycle is kept whole: when two names depend on each other and either is
/// reachable, both lie in the reach set.
pub proof fn lemma_cycle_kept_together(
    g: Map<Seq<char>, Set<Seq<char>>>,
    roots: Set<Seq<char>>,
    a: Seq<char>,
    b: Seq<char>,
)
    requires
        g.dom().contains(a),
        g[a].contains(b),
        g.dom().contains(b),
        g[b].contains(a),
        reaches(g, roots, a) || reaches(g, roots, b),
    ensures
        reach_set(g, roots).contains(a),
        reach_set(g, roots).contains(b),
{
    if reaches(g, roots, a) {
        lemma_reaches_step(g, roots, a, b);
    } else {
        lemma_reaches_step(g, roots, b, a);
    }
}

/// Names reachable from a root set: the iterative work-stack traversal.
///
/// Every name of the root set is kept, even one that is no node of the graph;
/// a kept node's edges are followed; nothing else is kept. Cycles are handled
/// by inserting a name before expanding it, so each name is expanded at most
/// once.
pub fn compute_closure(roots: &Vec<String>, deps: &DepGraph) -> (keep: Vec<String>)
    requires
        deps.wf(),
    ensures
        name_set(keep@) == reach_set(deps.graph_map(), name_set(roots@)),
{
    let ghost gm = deps.graph_map();
    let ghost rootset = name_set(roots@);
    let mut uni = deps.all_names();
    let mut i: usize = 0;
    while i < roots.len()
        invariant
            i <= roots@.len(),
            deps.wf(),
            forall|n: Seq<char>|
                gm.dom().contains(n) ==> #[trigger] name_set(uni@).contains(n),
            forall|n: Seq<char>, d: Seq<char>|
                gm.dom().contains(n) && #[trigger] gm[n].contains(d) ==> name_set(uni@).contains(
                    d,
                ),
            forall|k: int| 0 <= k < i ==> name_set(uni@).contains(#[trigger] roots@[k]@),
            gm == deps.graph_map(),
        decreases roots@.len() - i,
    {
        let ghost before = uni@;
        uni.push(roots[i].clone());
        proof {
            lemma_name_set_push(before, roots@[i as int]);
        }
        i += 1;
    }
    let ghost uset = name_set(uni@);
    proof {
        assert forall|x: Seq<char>| rootset.contains(x) implies uset.contains(x) by {
            let mapped = roots@.map_values(|s: String| s@);
            let k = choose|k: int| 0 <= k < mapped.len() && #[trigger] mapped[k] == x;
            assert(name_set(uni@).contains(roots@[k]@));
        }
        assert(uset.finite()) by {
            vstd::seq_lib::seq_to_set_is_finite(uni@.map_values(|s: String| s@));
        }
    }

    let mut keep: Vec<String> = Vec::new();
    let mut stack: Vec<String> = Vec::new();
    let mut j: usize = 0;
    while j < roots.len()
        invariant
            j <= roots@.len(),
            stack@ =~= roots@.take(j as int),
        decreases roots@.len() - j,
    {
        stack.push(roots[j].clone());
        proof {
            assert(stack@ =~= roots@.take(j + 1));
        }
        j += 1;
    }
    proof {
        assert(roots@.take(roots@.len() as int) =~= roots@);
        assert forall|k: int| 0 <= k < stack@.len() implies reaches(
            gm,
            rootset,
            #[trigger] stack@[k]@,
        ) by {
            assert(roots@.map_values(|s: String| s@)[k] == roots@[k]@);
            assert(rootset.contains(stack@[k]@));
            lemma_root_reaches(gm, rootset, stack@[k]@);
        }
    }

    while stack.len() > 0
        invariant
            deps.wf(),
            gm == deps.graph_map(),
            uset == name_set(uni@),
            uset.finite(),
            rootset == name_set(roots@),
            forall|n: Seq<char>| gm.dom().contains(n) ==> #[trigger] uset.contains(n),
            forall|n: Seq<char>, d: Seq<char>|
                gm.dom().contains(n) && #[trigger] gm[n].contains(d) ==> uset.contains(d),
            rootset.subset_of(uset),
            forall|k: int| 0 <= k < stack@.len() ==> reaches(gm, rootset, #[trigger] stack@[k]@),
            forall|k: int| 0 <= k < keep@.len() ==> reaches(gm, rootset, #[trigger] keep@[k]@),
            forall|k: int, d: Seq<char>|
                0 <= k < keep@.len() && gm.dom().contains(keep@[k]@) && #[trigger] gm[keep@[k]@].contains(
                    d,
                ) ==> name_set(keep@).contains(d) || name_set(stack@).contains(d),
            forall|x: Seq<char>|
                rootset.contains(x) ==> name_set(keep@).contains(x) || name_set(stack@).contains(
                    x,
                ),
            name_set(keep@).subset_of(uset),
            name_set(stack@).subset_of(uset),
            keep@.map_values(|s: String| s@).no_duplicates(),
            keep@.len() <= uset.len(),
        decreases uset.len() - keep@.len(), stack@.len(),
    {
        let ghost stack_before = stack@;
        let member = stack.pop().unwrap();
        proof {
            assert(stack_before =~= stack@.push(member));
            lemma_name_set_push(stack@, member);
            assert(name_set(stack_before) == name_set(stack@).insert(member@));
        }
        if !contains_name(&keep, &member) {
            let ghost keep_before = keep@;
            keep.push(member.clone());
            proof {
                lemma_name_set_push(keep_before, member);
                assert(keep@.map_values(|s: String| s@) =~= keep_before.map_values(
                    |s: String| s@,
                ).push(member@));
                assert forall|x: Seq<char>|
                    name_set(keep_before).contains(x) implies keep_before.map_values(
                    |s: String| s@,
                ).contains(x) by {}
                assert(keep@.map_values(|s: String| s@).no_duplicates());
                keep@.map_values(|s: String| s@).unique_seq_to_set();
                vstd::set_lib::lemma_len_subset(name_set(keep@), uset);
            }
            match deps.get(&member) {
                Some(children) => {
                    let ghost entered = keep@;
                    let mut c: usize = 0;
                    while c < children.len()
                        invariant
                            c <= children@.len(),
                            deps.wf(),
                            gm == deps.graph_map(),
                            gm.dom().contains(member@),
                            gm[member@] == name_set(children@),
                            keep@ == entered,
                            entered.len() > 0,
                            entered.last() == member,
                            reaches(gm, rootset, member@),
                            uset == name_set(uni@),
                            uset.finite(),
                            rootset == name_set(roots@),
                            forall|n: Seq<char>| gm.dom().contains(n) ==> #[trigger] uset.contains(n),
                            forall|n: Seq<char>, d: Seq<char>|
                                gm.dom().contains(n) && #[trigger] gm[n].contains(d)
                                    ==> uset.contains(d),
                            rootset.subset_of(uset),
                            forall|k: int|
                                0 <= k < stack@.len() ==> reaches(
                                    gm,
                                    rootset,
                                    #[trigger] stack@[k]@,
                                ),
                            forall|k: int|
                                0 <= k < keep@.len() ==> reaches(gm, rootset, #[trigger] keep@[k]@),
                            forall|k: int, d: Seq<char>|
                                0 <= k < keep@.len() - 1 && gm.dom().contains(keep@[k]@)
                                    && #[trigger] gm[keep@[k]@].contains(d) ==> name_set(
                                    keep@,
                                ).contains(d) || name_set(stack@).contains(d),
                            forall|x: Seq<char>|
                                rootset.contains(x) ==> name_set(keep@).contains(x) || name_set(
                                    stack@,
                                ).contains(x),
                            forall|l: int|
                                0 <= l < c ==> name_set(stack@).contains(#[trigger] children@[l]@),
                            name_set(keep@).subset_of(uset),
                            name_set(stack@).subset_of(uset),
                            keep@.map_values(|s: String| s@).no_duplicates(),
                            keep@.len() <= uset.len(),
                        decreases children@.len() - c,
                    {
                        let ghost sb = stack@;
                        stack.push(children[c].clone());
                        proof {
                            lemma_name_set_push(sb, children@[c as int]);
                            assert(name_set(children@).contains(children@[c as int]@)) by {
                                assert(children@.map_values(|s: String| s@)[c as int]
                                    == children@[c as int]@);
                            }
                            lemma_reaches_step(gm, rootset, member@, children@[c as int]@);
                        }
                        c += 1;
                    }
                    proof {
                        assert forall|d: Seq<char>| gm[member@].contains(d) implies name_set(
                            stack@,
                        ).contains(d) by {
                            let mapped = children@.map_values(|s: String| s@);
                            let l = choose|l: int|
                                0 <= l < mapped.len() && #[trigger] mapped[l] == d;
                            assert(name_set(stack@).contains(children@[l]@));
                        }
                        assert forall|k: int, d: Seq<char>|
                            0 <= k < keep@.len() && gm.dom().contains(keep@[k]@)
                                && #[trigger] gm[keep@[k]@].contains(d) implies name_set(
                            keep@,
                        ).contains(d) || name_set(stack@).contains(d) by {
                            if k == keep@.len() - 1 {
                                assert(keep@[k] == member);
                            }
                        }
                    }
                },
                None => {
                    proof {
                        assert forall|k: int, d: Seq<char>|
                            0 <= k < keep@.len() && gm.dom().contains(keep@[k]@)
                                && #[trigger] gm[keep@[k]@].contains(d) implies name_set(
                            keep@,
                        ).contains(d) || name_set(stack@).contains(d) by {
                            if k == keep@.len() - 1 {
                                assert(keep@[k] == member);
                                assert(false);
                            }
                        }
                    }
                },
            }
        } else {
            proof {
                assert(name_set(keep@).contains(member@));
            }
        }
    }
    proof {
        let kset = name_set(keep@);
        assert forall|x: Seq<char>| kset.contains(x) implies reach_set(gm, rootset).contains(
            x,
        ) by {
            let mapped = keep@.map_values(|s: String| s@);
            let k = choose|k: int| 0 <= k < mapped.len() && #[trigger] mapped[k] == x;
            assert(reaches(gm, rootset, keep@[k]@));
        }
        assert(name_set(stack@) =~= Set::<Seq<char>>::empty()) by {
            if exists|x: Seq<char>| name_set(stack@).contains(x) {
                let x = choose|x: Seq<char>| name_set(stack@).contains(x);
                let mapped = stack@.map_values(|s: String| s@);
                let k = choose|k: int| 0 <= k < mapped.len() && #[trigger] mapped[k] == x;
            }
        }
        assert(closed_under(gm, kset)) by {
            assert forall|x: Seq<char>, y: Seq<char>|
                kset.contains(x) && gm.dom().contains(x) && #[trigger] gm[x].contains(
                    y,
                ) implies kset.contains(y) by {
                let mapped = keep@.map_values(|s: String| s@);
                let k = choose|k: int| 0 <= k < mapped.len() && #[trigger] mapped[k] == x;
                assert(gm[keep@[k]@].contains(y));
            }
        }
        assert(rootset.subset_of(kset));
        lemma_reach_set_characterization(gm, rootset);
        assert(name_set(keep@) =~= reach_set(gm, rootset));
    }
    keep
}

/// Names reachable from one target member: the root set is the singleton
/// holding the target.
pub fn compute_transitive_deps(target: &str, deps: &DepGraph) -> (keep: Vec<String>)
    requires
        deps.wf(),
    ensures
        name_set(keep@) == reach_set(
            deps.graph_map(),
            Set::<Seq<char>>::empty().insert(target@),
        ),
{
    let mut roots: Vec<String> = Vec::new();
    roots.push(target.to_owned());
    let r = compute_closure(&roots, deps);
    proof {
        assert(name_set(roots@) =~= Set::<Seq<char>>::empty().insert(target@)) by {
            assert(roots@.map_values(|s: String| s@) =~= seq![target@]);
            assert forall|x: Seq<char>|
                name_set(roots@).contains(x) implies Set::<Seq<char>>::empty().insert(
                target@,
            ).contains(x) by {
                let mapped = roots@.map_values(|s: String| s@);
                let k = choose|k: int| 0 <= k < mapped.len() && #[trigger] mapped[k] == x;
            }
            assert(name_set(roots@).contains(target@)) by {
                assert(roots@.map_values(|s: String| s@)[0] == target@);
            }
        }
    }
    r
}

} // verus!
