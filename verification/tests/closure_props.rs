use reduce_recipe::closure::compute_closure;
use reduce_recipe::closure::compute_transitive_deps;
use reduce_recipe::contains_name;
use reduce_recipe::graph::DepGraph;
use reduce_recipe::names::retain_known;

fn names(list: &[&str]) -> Vec<String> {
    list.iter().map(|s| (*s).to_owned()).collect()
}

fn sorted(mut v: Vec<String>) -> Vec<String> {
    v.sort();
    v
}

#[test]
fn test_closure_follows_edges() {
    let mut g = DepGraph::new();
    g.insert("foo".to_owned(), names(&["bar"]));
    g.insert("bar".to_owned(), names(&[]));
    g.insert("baz".to_owned(), names(&[]));
    let keep = compute_transitive_deps("foo", &g);
    assert_eq!(sorted(keep), names(&["bar", "foo"]));
}

#[test]
fn test_closure_excludes_unreachable() {
    let mut g = DepGraph::new();
    g.insert("a".to_owned(), names(&["b"]));
    g.insert("b".to_owned(), names(&[]));
    g.insert("c".to_owned(), names(&["b"]));
    let keep = compute_transitive_deps("a", &g);
    assert!(!keep.contains(&"c".to_owned()));
    assert_eq!(sorted(keep), names(&["a", "b"]));
}

#[test]
fn test_closure_keeps_target_missing_from_graph() {
    let g = DepGraph::new();
    let keep = compute_transitive_deps("lonely", &g);
    assert_eq!(keep, names(&["lonely"]));
}

#[test]
fn test_closure_cycle_terminates() {
    // a dependency cycle terminates and both names are kept
    let mut g = DepGraph::new();
    g.insert("a".to_owned(), names(&["b"]));
    g.insert("b".to_owned(), names(&["a"]));
    let keep = compute_transitive_deps("a", &g);
    assert_eq!(sorted(keep), names(&["a", "b"]));
}

#[test]
fn test_closure_diamond_visits_once() {
    let mut g = DepGraph::new();
    g.insert("top".to_owned(), names(&["left", "right"]));
    g.insert("left".to_owned(), names(&["bottom"]));
    g.insert("right".to_owned(), names(&["bottom"]));
    g.insert("bottom".to_owned(), names(&[]));
    let keep = compute_transitive_deps("top", &g);
    assert_eq!(sorted(keep), names(&["bottom", "left", "right", "top"]));
}

#[test]
fn test_closure_multi_root() {
    let mut g = DepGraph::new();
    g.insert("a".to_owned(), names(&[]));
    g.insert("b".to_owned(), names(&["c"]));
    g.insert("c".to_owned(), names(&[]));
    g.insert("d".to_owned(), names(&[]));
    let keep = compute_closure(&names(&["a", "b"]), &g);
    assert_eq!(sorted(keep), names(&["a", "b", "c"]));
}

#[test]
fn test_closure_is_fixed_point() {
    // recomputing the closure over the kept subgraph changes nothing
    let mut g = DepGraph::new();
    g.insert("a".to_owned(), names(&["b", "c"]));
    g.insert("b".to_owned(), names(&["c"]));
    g.insert("c".to_owned(), names(&[]));
    g.insert("d".to_owned(), names(&["a"]));
    let keep = compute_transitive_deps("a", &g);
    let mut reduced = DepGraph::new();
    for kept in &keep {
        if let Some(deps) = g.get(kept) {
            let restricted = retain_known(&deps.clone(), &keep);
            reduced.insert(kept.clone(), restricted);
        }
    }
    let again = compute_transitive_deps("a", &reduced);
    assert_eq!(sorted(keep), sorted(again));
}

#[test]
fn test_graph_insert_overwrites() {
    let mut g = DepGraph::new();
    g.insert("a".to_owned(), names(&["b"]));
    g.insert("a".to_owned(), names(&["c"]));
    let deps = g.get(&"a".to_owned()).unwrap();
    assert_eq!(deps, &names(&["c"]));
}

#[test]
fn test_contains_name() {
    let v = names(&["alpha", "beta"]);
    assert!(contains_name(&v, &"alpha".to_owned()));
    assert!(!contains_name(&v, &"gamma".to_owned()));
}

#[test]
fn test_retain_known() {
    let v = names(&["a", "b", "c"]);
    let uni = names(&["b", "c", "d"]);
    assert_eq!(retain_known(&v, &uni), names(&["b", "c"]));
}
