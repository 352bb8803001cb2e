//! Dependency graphs: finite maps from crate names to the sets of names they
//! reference, kept as vectors of entries with pairwise distinct names.
use vstd::prelude::*;

use crate::names::name_set;

verus! {

/// One node of a dependency graph: a crate name and its outgoing edges.
pub struct GraphEntry {
    pub name: String,
    pub deps: Vec<String>,
}

/// A dependency graph. Inserting an existing name replaces its edges, as a
/// map insertion would.
pub struct DepGraph {
    entries: Vec<GraphEntry>,
}

/// The map a sequence of entries denotes: later entries overwrite earlier
/// ones, and each entry's edge list is read as a set.
pub open spec fn entries_map(es: Seq<GraphEntry>) -> Map<Seq<char>, Set<Seq<char>>>
    decreases es.len(),
{
    if es.len() == 0 {
        Map::empty()
    } else {
        entries_map(es.drop_last()).insert(es.last().name@, name_set(es.last().deps@))
    }
}

/// The names of a sequence of entries.
pub open spec fn entry_names(es: Seq<GraphEntry>) -> Seq<Seq<char>> {
    es.map_values(|e: GraphEntry| e.name@)
}

proof fn lemma_entries_map_dom(es: Seq<GraphEntry>)
    ensures
        entries_map(es).dom() == entry_names(es).to_set(),
    decreases es.len(),
{
    if es.len() == 0 {
        assert(entry_names(es).to_set() =~= Set::<Seq<char>>::empty());
        assert(entries_map(es).dom() =~= entry_names(es).to_set());
    } else {
        lemma_entries_map_dom(es.drop_last());
        assert(entry_names(es) =~= entry_names(es.drop_last()).push(es.last().name@));
        entry_names(es.drop_last()).lemma_push_to_set_commute(es.last().name@);
        assert(entries_map(es).dom() =~= entry_names(es).to_set());
    }
}

proof fn lemma_entries_map_get(es: Seq<GraphEntry>, i: int)
    requires
        0 <= i < es.len(),
        forall|j: int| i < j < es.len() ==> es[j].name@ != es[i].name@,
    ensures
        entries_map(es).dom().contains(es[i].name@),
        entries_map(es)[es[i].name@] == name_set(es[i].deps@),
    decreases es.len(),
{
    if i == es.len() - 1 {
    } else {
        assert(es.drop_last()[i] == es[i]);
        lemma_entries_map_get(es.drop_last(), i);
    }
}

impl DepGraph {
    /// The mathematical content of the graph: which names are nodes, and the
    /// set of names each node references.
    pub closed spec fn graph_map(self) -> Map<Seq<char>, Set<Seq<char>>> {
        entries_map(self.entries@)
    }

    /// Entries carry pairwise distinct names.
    pub closed spec fn wf(self) -> bool {
        forall|i: int, j: int|
            0 <= i < j < self.entries@.len() ==> self.entries@[i].name@ != self.entries@[j].name@
    }

    /// The empty graph.
    pub fn new() -> (r: DepGraph)
        ensures
            r.wf(),
            r.graph_map() == Map::<Seq<char>, Set<Seq<char>>>::empty(),
    {
        DepGraph { entries: Vec::new() }
    }

    /// The position of `name` among the entries, if any.
    fn find(&self, name: &String) -> (r: Option<usize>)
        ensures
            r matches Some(i) ==> i < self.entries@.len() && self.entries@[i as int].name@
                == name@,
            r is None ==> forall|i: int| 0 <= i < self.entries@.len() ==> self.entries@[i].name@
                != name@,
    {
        let mut i: usize = 0;
        while i < self.entries.len()
            invariant
                i <= self.entries@.len(),
                forall|j: int| 0 <= j < i ==> self.entries@[j].name@ != name@,
            decreases self.entries@.len() - i,
        {
            if self.entries[i].name.eq(name) {
                return Some(i);
            }
            i += 1;
        }
        None
    }

    /// Map insertion: add a node, or replace the edges of an existing one.
    pub fn insert(&mut self, name: String, deps: Vec<String>)
        requires
            old(self).wf(),
        ensures
            final(self).wf(),
            final(self).graph_map() == old(self).graph_map().insert(name@, name_set(deps@)),
    {
        let ghost old_es = self.entries@;
        match self.find(&name) {
            Some(i) => {
                self.entries.remove(i);
                self.entries.insert(i, GraphEntry { name, deps });
                proof {
                    assert(self.entries@ =~= old_es.update(i as int, self.entries@[i as int]));
                    lemma_entries_map_update(old_es, i as int, self.entries@[i as int]);
                }
            },
            None => {
                self.entries.push(GraphEntry { name, deps });
                proof {
                    assert(self.entries@.drop_last() =~= old_es);
                }
            },
        }
    }

    /// Map lookup: the edge list of `name`, if `name` is a node.
    pub fn get(&self, name: &String) -> (r: Option<&Vec<String>>)
        requires
            self.wf(),
        ensures
            r is Some <==> self.graph_map().dom().contains(name@),
            r matches Some(d) ==> self.graph_map()[name@] == name_set(d@),
    {
        proof {
            lemma_entries_map_dom(self.entries@);
        }
        match self.find(name) {
            Some(i) => {
                proof {
                    lemma_entries_map_get(self.entries@, i as int);
                }
                Some(&self.entries[i].deps)
            },
            None => None,
        }
    }

    /// A vector of names that covers every node and every edge target of the
    /// graph.
    pub fn all_names(&self) -> (r: Vec<String>)
        requires
            self.wf(),
        ensures
            forall|n: Seq<char>|
                self.graph_map().dom().contains(n) ==> #[trigger] name_set(r@).contains(n),
            forall|n: Seq<char>, d: Seq<char>|
                self.graph_map().dom().contains(n) && #[trigger] self.graph_map()[n].contains(d)
                    ==> name_set(r@).contains(d),
    {
        proof {
            lemma_entries_map_dom(self.entries@);
        }
        let mut r: Vec<String> = Vec::new();
        let mut i: usize = 0;
        while i < self.entries.len()
            invariant
                i <= self.entries@.len(),
                forall|k: int|
                    0 <= k < i ==> #[trigger] name_set(r@).contains(self.entries@[k].name@),
                forall|k: int, d: Seq<char>|
                    0 <= k < i && #[trigger] name_set(self.entries@[k].deps@).contains(d)
                        ==> name_set(r@).contains(d),
            decreases self.entries@.len() - i,
        {
            let ghost before = r@;
            r.push(self.entries[i].name.clone());
            proof {
                crate::names::lemma_name_set_push(before, self.entries@[i as int].name);
            }
            let deps = &self.entries[i].deps;
            let mut j: usize = 0;
            while j < deps.len()
                invariant
                    j <= deps@.len(),
                    deps@ == self.entries@[i as int].deps@,
                    i < self.entries@.len(),
                    name_set(r@).contains(self.entries@[i as int].name@),
                    forall|k: int|
                        0 <= k < i ==> #[trigger] name_set(r@).contains(self.entries@[k].name@),
                    forall|k: int, d: Seq<char>|
                        0 <= k < i && #[trigger] name_set(self.entries@[k].deps@).contains(d)
                            ==> name_set(r@).contains(d),
                    forall|l: int| 0 <= l < j ==> #[trigger] name_set(r@).contains(deps@[l]@),
                decreases deps@.len() - j,
            {
                let ghost before2 = r@;
                r.push(deps[j].clone());
                proof {
                    crate::names::lemma_name_set_push(before2, deps@[j as int]);
                }
                j += 1;
            }
            proof {
                assert forall|d: Seq<char>|
                    name_set(self.entries@[i as int].deps@).contains(d) implies #[trigger] name_set(
                    r@,
                ).contains(d) by {
                    let mapped = self.entries@[i as int].deps@.map_values(|s: String| s@);
                    let l = choose|l: int| 0 <= l < mapped.len() && #[trigger] mapped[l] == d;
                    assert(name_set(r@).contains(deps@[l]@));
                }
            }
            i += 1;
        }
        proof {
            assert forall|n: Seq<char>| self.graph_map().dom().contains(n) implies #[trigger] name_set(
                r@,
            ).contains(n) by {
                let k = choose|k: int|
                    0 <= k < self.entries@.len() && #[trigger] self.entries@[k].name@ == n;
                assert(name_set(r@).contains(self.entries@[k].name@));
            }
            assert forall|n: Seq<char>, d: Seq<char>|
                self.graph_map().dom().contains(n) && #[trigger] self.graph_map()[n].contains(
                    d,
                ) implies name_set(r@).contains(d) by {
                let k = choose|k: int|
                    0 <= k < self.entries@.len() && #[trigger] self.entries@[k].name@ == n;
                lemma_entries_map_get(self.entries@, k);
                assert(name_set(self.entries@[k].deps@).contains(d));
            }
        }
        r
    }
}

proof fn lemma_entries_map_update(es: Seq<GraphEntry>, i: int, e: GraphEntry)
    requires
        0 <= i < es.len(),
        e.name@ == es[i].name@,
        forall|k: int, j: int| 0 <= k < j < es.len() ==> es[k].name@ != es[j].name@,
    ensures
        entries_map(es.update(i, e)) == entries_map(es).insert(e.name@, name_set(e.deps@)),
    decreases es.len(),
{
    let upd = es.update(i, e);
    if i == es.len() - 1 {
        assert(upd.drop_last() =~= es.drop_last());
        assert(upd.last() == e);
        assert(entries_map(upd) =~= entries_map(es).insert(e.name@, name_set(e.deps@)));
    } else {
        assert(upd.drop_last() =~= es.drop_last().update(i, e));
        assert(upd.last() == es.last());
        assert(es.drop_last()[i] == es[i]);
        lemma_entries_map_update(es.drop_last(), i, e);
        assert(es.last().name@ != e.name@);
        assert(entries_map(es.drop_last()).insert(e.name@, name_set(e.deps@)).insert(
            es.last().name@,
            name_set(es.last().deps@),
        ) =~= entries_map(es).insert(e.name@, name_set(e.deps@)));
        assert(entries_map(upd) =~= entries_map(es).insert(e.name@, name_set(e.deps@)));
    }
}

} // verus!
