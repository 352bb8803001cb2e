//! Name sets: small helpers over vectors of crate names, viewed as sets of
//! character sequences.
use vstd::prelude::*;

verus! {

/// A vector of names viewed as a sequence of character sequences.
pub open spec fn name_seq(names: Seq<String>) -> Seq<Seq<char>> {
    names.map_values(|s: String| s@)
}

/// The set of entries of a sequence of character sequences.
pub open spec fn seq_set(names: Seq<Seq<char>>) -> Set<Seq<char>> {
    names.to_set()
}

/// The set of character-sequence views of a vector of names.
pub open spec fn name_set(names: Seq<String>) -> Set<Seq<char>> {
    name_seq(names).to_set()
}

pub broadcast proof fn lemma_name_set_push(names: Seq<String>, s: String)
    ensures
        #[trigger] name_set(names.push(s)) == name_set(names).insert(s@),
{
    assert(names.push(s).map_values(|t: String| t@) =~= names.map_values(|t: String| t@).push(
        s@,
    ));
    names.map_values(|t: String| t@).lemma_push_to_set_commute(s@);
}

/// Whether `names` holds a string whose view is `target`.
pub fn contains_name(names: &Vec<String>, target: &String) -> (r: bool)
    ensures
        r == name_set(names@).contains(target@),
{
    let mut i: usize = 0;
    while i < names.len()
        invariant
            i <= names.len(),
            forall|j: int| 0 <= j < i ==> names@[j]@ != target@,
        decreases names.len() - i,
    {
        if names[i].eq(target) {
            proof {
                assert(name_set(names@).contains(target@)) by {
                    assert(names@.map_values(|s: String| s@)[i as int] == target@);
                }
            }
            return true;
        }
        i += 1;
    }
    proof {
        assert(!name_set(names@).contains(target@)) by {
            if name_set(names@).contains(target@) {
                let mapped = names@.map_values(|s: String| s@);
                let k = choose|k: int| 0 <= k < mapped.len() && #[trigger] mapped[k] == target@;
                assert(names@[k]@ == target@);
            }
        }
    }
    false
}

/// The entries of `names` whose view lies in `universe`, in order.
pub fn retain_known(names: &Vec<String>, universe: &Vec<String>) -> (r: Vec<String>)
    ensures
        name_set(r@) == name_set(names@).intersect(name_set(universe@)),
{
    let mut r: Vec<String> = Vec::new();
    let mut i: usize = 0;
    proof {
        assert(name_set(r@) =~= name_set(names@.take(0)).intersect(name_set(universe@))) by {
            assert(r@.map_values(|s: String| s@) =~= Seq::<Seq<char>>::empty());
            assert(names@.take(0).map_values(|s: String| s@) =~= Seq::<Seq<char>>::empty());
        }
    }
    while i < names.len()
        invariant
            i <= names.len(),
            name_set(r@) == name_set(names@.take(i as int)).intersect(name_set(universe@)),
        decreases names.len() - i,
    {
        let ghost prev = r@;
        if contains_name(universe, &names[i]) {
            r.push(names[i].clone());
            proof {
                lemma_name_set_push(prev, names@[i as int]);
            }
        }
        proof {
            assert(names@.take(i + 1) =~= names@.take(i as int).push(names@[i as int]));
            lemma_name_set_push(names@.take(i as int), names@[i as int]);
            assert(name_set(r@) =~= name_set(names@.take(i + 1)).intersect(name_set(universe@)));
        }
        i += 1;
    }
    proof {
        assert(names@.take(names@.len() as int) =~= names@);
    }
    r
}

} // verus!
