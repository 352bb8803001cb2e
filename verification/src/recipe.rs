//! The recipe model and the reduction pipeline: census of workspace members,
//! dependency-graph construction, and the three pruning passes.
use vstd::prelude::*;

use crate::closure::compute_closure;
use crate::closure::reach_set;
use crate::graph::DepGraph;
use crate::names::contains_name;
use crate::names::name_seq;
use crate::names::lemma_name_set_push;
use crate::names::name_set;
use crate::names::retain_known;
use crate::names::seq_set;
use crate::toml_doc::dep_names_of;
use crate::toml_doc::lock_filtered_of;
use crate::toml_doc::lock_names_of;
use crate::toml_doc::lock_package_names;
use crate::toml_doc::members_rewritable;
use crate::toml_doc::members_rewrite_of;
use crate::toml_doc::opt_name_seq;
use crate::toml_doc::package_name_of;
use crate::toml_doc::parse_dep_names;
use crate::toml_doc::parse_package_name;
use crate::toml_doc::parse_workspace_dep_names;
use crate::toml_doc::parse_workspace_members;
use crate::toml_doc::rewrite_members;
use crate::toml_doc::lock_apply_filter;
use crate::toml_doc::toml_parses;
use crate::toml_doc::workspace_dep_names_of;
use crate::toml_doc::workspace_members_of;

verus! {

/// One manifest: a workspace-relative path and its raw TOML text.
#[derive(Clone, Debug, PartialEq, Eq)]
pub struct Manifest {
    pub relative_path: String,
    pub contents: String,
}

/// The spec-level content of a manifest.
#[verifier::ext_equal]
pub struct ManifestView {
    pub path: Seq<char>,
    pub contents: Seq<char>,
}

impl View for Manifest {
    type V = ManifestView;

    open spec fn view(&self) -> ManifestView {
        ManifestView { path: self.relative_path@, contents: self.contents@ }
    }
}

/// The manifests of a workspace and its optional lock-file text.
#[derive(Clone, Debug, PartialEq, Eq)]
pub struct Skeleton {
    pub manifests: Vec<Manifest>,
    pub lock_file: Option<String>,
}

/// A build recipe: the snapshot this library reduces.
#[derive(Clone, Debug, PartialEq, Eq)]
pub struct Recipe {
    pub skeleton: Skeleton,
}

/// The spec-level content of a recipe.
#[verifier::ext_equal]
pub struct RecipeView {
    pub manifests: Seq<ManifestView>,
    pub lock_file: Option<Seq<char>>,
}

impl View for Recipe {
    type V = RecipeView;

    open spec fn view(&self) -> RecipeView {
        RecipeView {
            manifests: views(self.skeleton.manifests@),
            lock_file: match self.skeleton.lock_file {
                Some(s) => Some(s@),
                None => None,
            },
        }
    }
}

/// The views of a sequence of manifests.
pub open spec fn views(ms: Seq<Manifest>) -> Seq<ManifestView> {
    ms.map_values(|m: Manifest| m@)
}

/// Why a reduction was refused.
#[derive(Clone, Copy, Debug, PartialEq, Eq, Structural)]
pub enum ReduceError {
    /// No manifest has the root manifest path.
    MissingRootManifest,
    /// The root manifest is not valid TOML.
    InvalidManifestSyntax,
    /// The root manifest declares no usable root table for the chosen mode:
    /// no `workspace.dependencies` table, or no `workspace.members` array.
    MissingWorkspaceMembersOrDependenciesTable,
    /// The lock file is not valid TOML.
    InvalidLockfileSyntax,
}

impl ReduceError {
    /// A short human-readable account of the error.
    pub fn describe(&self) -> (r: String)
        ensures
            self is MissingRootManifest ==> r@ == "no root Cargo.toml found"@,
            self is InvalidManifestSyntax ==> r@ == "root Cargo.toml is not valid toml"@,
            self is MissingWorkspaceMembersOrDependenciesTable ==> r@
                == "workspace members or dependencies table is missing or malformed"@,
            self is InvalidLockfileSyntax ==> r@ == "lock file is not valid toml"@,
    {
        match self {
            ReduceError::MissingRootManifest => "no root Cargo.toml found".to_owned(),
            ReduceError::InvalidManifestSyntax => "root Cargo.toml is not valid toml".to_owned(),
            ReduceError::MissingWorkspaceMembersOrDependenciesTable => "workspace members or dependencies table is missing or malformed".to_owned(),
            ReduceError::InvalidLockfileSyntax => "lock file is not valid toml".to_owned(),
        }
    }
}

/// How the root set of a reduction is chosen: the members already declared in
/// the root manifest, or one explicit target member with its transitive
/// dependencies.
#[derive(Clone, Debug, PartialEq, Eq)]
pub enum RootSelector {
    FromDeclaredMembers,
    FromExplicitTarget(String),
}

/// The spec-level content of a root selector.
pub enum RootChoiceView {
    Declared,
    Explicit(Seq<char>),
}

impl View for RootSelector {
    type V = RootChoiceView;

    open spec fn view(&self) -> RootChoiceView {
        match self {
            RootSelector::FromDeclaredMembers => RootChoiceView::Declared,
            RootSelector::FromExplicitTarget(t) => RootChoiceView::Explicit(t@),
        }
    }
}

/// The fixed path of the root manifest.
pub open spec fn root_path() -> Seq<char> {
    "Cargo.toml"@
}

/// Whether a manifest is the workspace root manifest.
pub open spec fn is_root(m: ManifestView) -> bool {
    m.path == root_path()
}

/// Whether some manifest is the root manifest.
pub open spec fn has_root(ms: Seq<ManifestView>) -> bool {
    exists|i: int| 0 <= i < ms.len() && is_root(#[trigger] ms[i])
}

/// The index of the first root manifest.
pub open spec fn root_index(ms: Seq<ManifestView>) -> int
    decreases ms.len(),
{
    if ms.len() == 0 {
        0
    } else if is_root(ms[0]) {
        0
    } else {
        1 + root_index(ms.drop_first())
    }
}

pub proof fn lemma_root_index(ms: Seq<ManifestView>)
    requires
        has_root(ms),
    ensures
        0 <= root_index(ms) < ms.len(),
        is_root(ms[root_index(ms)]),
        forall|j: int| 0 <= j < root_index(ms) ==> !is_root(#[trigger] ms[j]),
    decreases ms.len(),
{
    if !is_root(ms[0]) {
        let rest = ms.drop_first();
        assert(has_root(rest)) by {
            let i = choose|i: int| 0 <= i < ms.len() && is_root(#[trigger] ms[i]);
            assert(rest[i - 1] == ms[i]);
        }
        lemma_root_index(rest);
        assert forall|j: int| 0 <= j < root_index(ms) implies !is_root(#[trigger] ms[j]) by {
            if j > 0 {
                assert(rest[j - 1] == ms[j]);
            }
        }
    }
}

/// The crate name a manifest's text yields, if any.
///
/// A manifest that does not parse, or that carries no `package.name` string,
/// yields none; this is the mark of the root manifest.
pub fn extract_crate_name(manifest: &Manifest) -> (r: Option<String>)
    ensures
        r is Some <==> package_name_of(manifest@.contents) is Some,
        r matches Some(n) ==> package_name_of(manifest@.contents) == Some(n@),
{
    parse_package_name(manifest.contents.as_str())
}

/// The position of the root manifest, if any.
fn find_root_index(manifests: &Vec<Manifest>) -> (r: Option<usize>)
    ensures
        r is Some <==> has_root(views(manifests@)),
        r matches Some(i) ==> i < manifests@.len() && i as int == root_index(views(manifests@)),
{
    let ghost ms = views(manifests@);
    let mut i: usize = 0;
    while i < manifests.len()
        invariant
            i <= manifests@.len(),
            ms == views(manifests@),
            forall|j: int| 0 <= j < i ==> !is_root(#[trigger] ms[j]),
        decreases manifests@.len() - i,
    {
        let root_name: String = "Cargo.toml".to_owned();
        if manifests[i].relative_path.eq(&root_name) {
            proof {
                assert(ms[i as int] == manifests@[i as int]@);
                assert(is_root(ms[i as int]));
                lemma_root_index(ms);
                assert(root_index(ms) <= i);
                assert(i as int == root_index(ms));
            }
            return Some(i);
        }
        proof {
            assert(ms[i as int] == manifests@[i as int]@);
        }
        i += 1;
    }
    proof {
        if has_root(ms) {
            let k = choose|k: int| 0 <= k < ms.len() && is_root(#[trigger] ms[k]);
        }
    }
    None
}

/// The root manifest of a recipe: the one whose relative path is the root
/// manifest path.
pub fn get_root_manifest(recipe: &Recipe) -> (r: Result<&Manifest, ReduceError>)
    ensures
        r is Ok <==> has_root(recipe@.manifests),
        r matches Ok(m) ==> m@ == recipe@.manifests[root_index(recipe@.manifests)],
        r matches Err(e) ==> e == ReduceError::MissingRootManifest,
{
    match find_root_index(&recipe.skeleton.manifests) {
        Some(i) => {
            proof {
                assert(recipe@.manifests[i as int] == recipe.skeleton.manifests@[i as int]@);
            }
            Ok(&recipe.skeleton.manifests[i])
        },
        None => Err(ReduceError::MissingRootManifest),
    }
}

/// The names every workspace member declares: the set of crate names found
/// over all manifests.
pub open spec fn member_names(ms: Seq<ManifestView>) -> Set<Seq<char>> {
    Set::new(
        |n: Seq<char>|
            exists|i: int|
                0 <= i < ms.len() && package_name_of(#[trigger] ms[i].contents) == Some(n),
    )
}

/// Every member crate name of the recipe, collected by inspecting each
/// manifest in turn.
pub fn get_workspace_members(recipe: &Recipe) -> (r: Vec<String>)
    ensures
        name_set(r@) == member_names(recipe@.manifests),
{
    let ghost ms = recipe@.manifests;
    let manifests = &recipe.skeleton.manifests;
    let mut r: Vec<String> = Vec::new();
    let mut i: usize = 0;
    proof {
        assert(name_set(r@) =~= member_names(ms.take(0))) by {
            assert(r@.map_values(|s: String| s@) =~= Seq::<Seq<char>>::empty());
        }
    }
    while i < manifests.len()
        invariant
            i <= manifests@.len(),
            ms == views(manifests@),
            name_set(r@) == member_names(ms.take(i as int)),
        decreases manifests@.len() - i,
    {
        let ghost before = r@;
        proof {
            assert(ms[i as int] == manifests@[i as int]@);
        }
        match extract_crate_name(&manifests[i]) {
            Some(name) => {
                proof {
                    assert(package_name_of(ms[i as int].contents) == Some(name@));
                }
                r.push(name);
                proof {
                    lemma_name_set_push(before, r@.last());
                    assert(name_set(r@) =~= member_names(ms.take(i + 1))) by {
                        assert forall|n: Seq<char>|
                            member_names(ms.take(i + 1)).contains(n) implies name_set(
                            r@,
                        ).contains(n) by {
                            let k = choose|k: int|
                                0 <= k < ms.take(i + 1).len() && package_name_of(
                                    #[trigger] ms.take(i + 1)[k].contents,
                                ) == Some(n);
                            if k < i {
                                assert(ms.take(i as int)[k] == ms.take(i + 1)[k]);
                                assert(member_names(ms.take(i as int)).contains(n));
                            }
                        }
                        assert forall|n: Seq<char>|
                            name_set(r@).contains(n) implies member_names(ms.take(
                            i + 1,
                        )).contains(n) by {
                            if n != r@.last()@ {
                                assert(member_names(ms.take(i as int)).contains(n));
                                let k = choose|k: int|
                                    0 <= k < ms.take(i as int).len() && package_name_of(
                                        #[trigger] ms.take(i as int)[k].contents,
                                    ) == Some(n);
                                assert(ms.take(i + 1)[k] == ms.take(i as int)[k]);
                            } else {
                                assert(ms.take(i + 1)[i as int] == ms[i as int]);
                            }
                        }
                    }
                }
            },
            None => {
                proof {
                    assert(name_set(r@) =~= member_names(ms.take(i + 1))) by {
                        assert forall|n: Seq<char>|
                            member_names(ms.take(i + 1)).contains(n) implies member_names(ms.take(
                            i as int,
                        )).contains(n) by {
                            let k = choose|k: int|
                                0 <= k < ms.take(i + 1).len() && package_name_of(
                                    #[trigger] ms.take(i + 1)[k].contents,
                                ) == Some(n);
                            assert(k != i);
                            assert(ms.take(i as int)[k] == ms.take(i + 1)[k]);
                        }
                        assert forall|n: Seq<char>|
                            member_names(ms.take(i as int)).contains(n) implies member_names(
                            ms.take(i + 1),
                        ).contains(n) by {
                            let k = choose|k: int|
                                0 <= k < ms.take(i as int).len() && package_name_of(
                                    #[trigger] ms.take(i as int)[k].contents,
                                ) == Some(n);
                            assert(ms.take(i + 1)[k] == ms.take(i as int)[k]);
                        }
                    }
                }
            },
        }
        i += 1;
    }
    proof {
        assert(ms.take(ms.len() as int) =~= ms);
    }
    r
}

/// The names of the workspace-level shared dependencies: the keys of the
/// root manifest's `workspace.dependencies` table. Fails when the root
/// manifest does not parse or carries no such table.
pub fn get_workspace_deps(root: &Manifest) -> (r: Result<Vec<String>, ReduceError>)
    ensures
        r is Ok <==> toml_parses(root@.contents) && workspace_dep_names_of(root@.contents)
            is Some,
        r is Ok ==> members_rewritable(root@.contents),
        r matches Ok(v) ==> seq_set(name_seq(v@)) == seq_set(
            workspace_dep_names_of(root@.contents)->0,
        ),
        r matches Err(e) ==> e == (if !toml_parses(root@.contents) {
            ReduceError::InvalidManifestSyntax
        } else {
            ReduceError::MissingWorkspaceMembersOrDependenciesTable
        }),
{
    match parse_workspace_dep_names(root.contents.as_str()) {
        Err(()) => Err(ReduceError::InvalidManifestSyntax),
        Ok(None) => Err(ReduceError::MissingWorkspaceMembersOrDependenciesTable),
        Ok(Some(v)) => Ok(v),
    }
}

/// The root set of the declared-members mode: the string entries of the root
/// manifest's `workspace.members` array. Fails when the root manifest does
/// not parse or carries no such array.
pub fn get_declared_members(root: &Manifest) -> (r: Result<Vec<String>, ReduceError>)
    ensures
        r is Ok <==> toml_parses(root@.contents) && workspace_members_of(root@.contents) is Some,
        r matches Ok(v) ==> name_seq(v@) == workspace_members_of(root@.contents)->0,
        r matches Err(e) ==> e == (if !toml_parses(root@.contents) {
            ReduceError::InvalidManifestSyntax
        } else {
            ReduceError::MissingWorkspaceMembersOrDependenciesTable
        }),
{
    match parse_workspace_members(root.contents.as_str()) {
        Err(()) => Err(ReduceError::InvalidManifestSyntax),
        Ok(None) => Err(ReduceError::MissingWorkspaceMembersOrDependenciesTable),
        Ok(Some(v)) => Ok(v),
    }
}

/// The dependency graph a sequence of manifests yields against a reference
/// universe: each named manifest becomes a node whose edges are its declared
/// dependency names restricted to the universe; a manifest seen later
/// overwrites an earlier one of the same name.
pub open spec fn graph_of(ms: Seq<ManifestView>, uni: Set<Seq<char>>) -> Map<
    Seq<char>,
    Set<Seq<char>>,
>
    decreases ms.len(),
{
    if ms.len() == 0 {
        Map::empty()
    } else {
        let prev = graph_of(ms.drop_last(), uni);
        match package_name_of(ms.last().contents) {
            Some(n) => prev.insert(n, seq_set(dep_names_of(ms.last().contents)).intersect(uni)),
            None => prev,
        }
    }
}

/// Both dependency graphs of a recipe: member-to-member edges, and
/// member-to-workspace-alias edges.
pub fn build_dependencies(recipe: &Recipe, all_members: &Vec<String>, all_ws_deps: &Vec<String>) -> (r: (
    DepGraph,
    DepGraph,
))
    ensures
        r.0.wf(),
        r.1.wf(),
        r.0.graph_map() == graph_of(recipe@.manifests, name_set(all_members@)),
        r.1.graph_map() == graph_of(recipe@.manifests, name_set(all_ws_deps@)),
{
    let ghost ms = recipe@.manifests;
    let ghost muni = name_set(all_members@);
    let ghost wuni = name_set(all_ws_deps@);
    let manifests = &recipe.skeleton.manifests;
    let mut members_graph = DepGraph::new();
    let mut ws_deps_graph = DepGraph::new();
    let mut i: usize = 0;
    proof {
        assert(members_graph.graph_map() =~= graph_of(ms.take(0), muni));
        assert(ws_deps_graph.graph_map() =~= graph_of(ms.take(0), wuni));
    }
    while i < manifests.len()
        invariant
            i <= manifests@.len(),
            ms == views(manifests@),
            muni == name_set(all_members@),
            wuni == name_set(all_ws_deps@),
            members_graph.wf(),
            ws_deps_graph.wf(),
            members_graph.graph_map() == graph_of(ms.take(i as int), muni),
            ws_deps_graph.graph_map() == graph_of(ms.take(i as int), wuni),
        decreases manifests@.len() - i,
    {
        proof {
            assert(ms[i as int] == manifests@[i as int]@);
            assert(ms.take(i + 1).drop_last() =~= ms.take(i as int));
            assert(ms.take(i + 1).last() == ms[i as int]);
        }
        match extract_crate_name(&manifests[i]) {
            Some(name) => {
                let deps = parse_dep_names(manifests[i].contents.as_str());
                let member_deps = retain_known(&deps, all_members);
                let ws_deps = retain_known(&deps, all_ws_deps);
                proof {
                    assert(name_set(deps@) == seq_set(dep_names_of(ms[i as int].contents)));
                    assert(package_name_of(ms[i as int].contents) == Some(name@));
                }
                members_graph.insert(name.clone(), member_deps);
                ws_deps_graph.insert(name, ws_deps);
            },
            None => {},
        }
        i += 1;
    }
    proof {
        assert(ms.take(ms.len() as int) =~= ms);
    }
    (members_graph, ws_deps_graph)
}

/// Whether manifest pruning keeps a manifest: the root manifest (no crate
/// name) is always kept, any other iff its crate name lies in the keep set.
pub open spec fn keep_manifest(m: ManifestView, keepset: Set<Seq<char>>) -> bool {
    match package_name_of(m.contents) {
        None => true,
        Some(n) => keepset.contains(n),
    }
}

/// The manifests surviving pruning, in their original order.
pub open spec fn filtered_manifests(ms: Seq<ManifestView>, keepset: Set<Seq<char>>) -> Seq<
    ManifestView,
> {
    ms.filter(|m: ManifestView| keep_manifest(m, keepset))
}

/// Manifest pruning is idempotent: pruning an already-pruned manifest list
/// with the same keep set changes nothing.
pub proof fn lemma_filter_manifests_idempotent(ms: Seq<ManifestView>, keepset: Set<Seq<char>>)
    ensures
        filtered_manifests(filtered_manifests(ms, keepset), keepset) == filtered_manifests(
            ms,
            keepset,
        ),
    decreases ms.len(),
{
    let pred = |m: ManifestView| keep_manifest(m, keepset);
    if ms.len() == 0 {
        assert(ms.filter(pred) =~= ms) by {
            reveal(Seq::filter);
        }
    } else {
        lemma_filter_manifests_idempotent(ms.drop_last(), keepset);
        assert(ms =~= ms.drop_last().push(ms.last()));
        ms.drop_last().lemma_filter_push(ms.last(), pred);
        if pred(ms.last()) {
            ms.drop_last().filter(pred).lemma_filter_push(ms.last(), pred);
        }
    }
}

/// The root manifest — any manifest without a crate name — survives manifest
/// pruning whatever the keep set holds.
pub proof fn lemma_root_manifest_preserved(
    ms: Seq<ManifestView>,
    keepset: Set<Seq<char>>,
    i: int,
)
    requires
        0 <= i < ms.len(),
        package_name_of(ms[i].contents) is None,
    ensures
        filtered_manifests(ms, keepset).contains(ms[i]),
{
    ms.lemma_filter_contains(|m: ManifestView| keep_manifest(m, keepset), i);
}

/// Keep each manifest that is the root manifest or whose crate name lies in
/// the keep set; drop the rest, preserving order.
pub fn filter_manifests(manifests: &Vec<Manifest>, keep_members: &Vec<String>) -> (r: Vec<
    Manifest,
>)
    ensures
        views(r@) == filtered_manifests(views(manifests@), name_set(keep_members@)),
{
    let ghost ms = views(manifests@);
    let ghost keepset = name_set(keep_members@);
    let ghost pred = |m: ManifestView| keep_manifest(m, keepset);
    let mut r: Vec<Manifest> = Vec::new();
    let mut i: usize = 0;
    proof {
        assert(views(r@) =~= ms.take(0).filter(pred));
    }
    while i < manifests.len()
        invariant
            i <= manifests@.len(),
            ms == views(manifests@),
            keepset == name_set(keep_members@),
            pred == (|m: ManifestView| keep_manifest(m, keepset)),
            views(r@) == ms.take(i as int).filter(pred),
        decreases manifests@.len() - i,
    {
        proof {
            assert(ms[i as int] == manifests@[i as int]@);
            assert(ms.take(i + 1).drop_last() =~= ms.take(i as int));
            assert(ms.take(i + 1) =~= ms.take(i as int).push(ms[i as int]));
            ms.take(i as int).lemma_filter_push(ms[i as int], pred);
        }
        let keep_this = match extract_crate_name(&manifests[i]) {
            None => true,
            Some(name) => contains_name(keep_members, &name),
        };
        if keep_this {
            let ghost before = r@;
            r.push(
                Manifest {
                    relative_path: manifests[i].relative_path.clone(),
                    contents: manifests[i].contents.clone(),
                },
            );
            proof {
                assert(r@.last()@ == ms[i as int]);
                assert(views(r@) =~= views(before).push(ms[i as int]));
            }
        }
        i += 1;
    }
    proof {
        assert(ms.take(ms.len() as int) =~= ms);
    }
    r
}

/// The manifest sequence with the root manifest's text replaced by its
/// members-rewritten form.
pub open spec fn with_rewritten_root(ms: Seq<ManifestView>, target: Seq<char>) -> Seq<
    ManifestView,
> {
    let i = root_index(ms);
    ms.update(i, ManifestView { path: ms[i].path, contents: members_rewrite_of(ms[i].contents, target) })
}

/// Replace the root manifest's `workspace.members` declaration by the
/// singleton array holding the target member. Fails when no root manifest
/// exists, when the root manifest does not parse, or when its `workspace`
/// item is of a shape no `members` entry can be set under — a root unusable
/// as a workspace declaration is reported as invalid manifest syntax.
pub fn filter_root_members(manifests: &Vec<Manifest>, target: &str) -> (r: Result<
    Vec<Manifest>,
    ReduceError,
>)
    ensures
        r is Ok <==> has_root(views(manifests@)) && toml_parses(
            views(manifests@)[root_index(views(manifests@))].contents,
        ) && members_rewritable(views(manifests@)[root_index(views(manifests@))].contents),
        r matches Ok(v) ==> views(v@) == with_rewritten_root(views(manifests@), target@),
        r matches Err(e) ==> e == (if !has_root(views(manifests@)) {
            ReduceError::MissingRootManifest
        } else {
            ReduceError::InvalidManifestSyntax
        }),
{
    let ghost ms = views(manifests@);
    let root_idx = match find_root_index(manifests) {
        Some(i) => i,
        None => {
            return Err(ReduceError::MissingRootManifest);
        },
    };
    proof {
        lemma_root_index(ms);
    }
    let rewritten = match rewrite_members(manifests[root_idx].contents.as_str(), target) {
        Some(t) => t,
        None => {
            return Err(ReduceError::InvalidManifestSyntax);
        },
    };
    let mut r: Vec<Manifest> = Vec::new();
    let mut i: usize = 0;
    while i < manifests.len()
        invariant
            i <= manifests@.len(),
            ms == views(manifests@),
            root_idx as int == root_index(ms),
            root_idx < manifests@.len(),
            rewritten@ == members_rewrite_of(ms[root_idx as int].contents, target@),
            r@.len() == i,
            forall|j: int|
                0 <= j < i && j != root_idx ==> #[trigger] r@[j]@ == ms[j],
            forall|j: int|
                0 <= j < i && j == root_idx ==> #[trigger] r@[j]@ == (ManifestView {
                    path: ms[j].path,
                    contents: members_rewrite_of(ms[j].contents, target@),
                }),
        decreases manifests@.len() - i,
    {
        proof {
            assert(ms[i as int] == manifests@[i as int]@);
        }
        if i == root_idx {
            r.push(
                Manifest {
                    relative_path: manifests[i].relative_path.clone(),
                    contents: rewritten.clone(),
                },
            );
        } else {
            r.push(
                Manifest {
                    relative_path: manifests[i].relative_path.clone(),
                    contents: manifests[i].contents.clone(),
                },
            );
        }
        i += 1;
    }
    proof {
        assert(views(r@) =~= with_rewritten_root(ms, target@));
    }
    Ok(r)
}

/// Whether lock-file pruning keeps an entry: one without a name, or whose
/// name is no recognized name of the universe, is kept unconditionally; a
/// recognized name is kept iff it lies in the keep set.
pub open spec fn lock_entry_kept(
    n: Option<Seq<char>>,
    uni: Set<Seq<char>>,
    keep: Set<Seq<char>>,
) -> bool {
    match n {
        None => true,
        Some(name) => !uni.contains(name) || keep.contains(name),
    }
}

/// The keep flag of each lock-file entry under one (universe, keep-set) pair.
pub open spec fn lock_keep_flags(
    names: Seq<Option<Seq<char>>>,
    uni: Set<Seq<char>>,
    keep: Set<Seq<char>>,
) -> Seq<bool> {
    names.map_values(|n: Option<Seq<char>>| lock_entry_kept(n, uni, keep))
}

/// The keep flag of each lock-file entry under two (universe, keep-set)
/// pairs: an entry is dropped when either pair drops it.
pub open spec fn lock_keep_flags2(
    names: Seq<Option<Seq<char>>>,
    uni1: Set<Seq<char>>,
    keep1: Set<Seq<char>>,
    uni2: Set<Seq<char>>,
    keep2: Set<Seq<char>>,
) -> Seq<bool> {
    names.map_values(
        |n: Option<Seq<char>>| lock_entry_kept(n, uni1, keep1) && lock_entry_kept(n, uni2, keep2),
    )
}

/// The keep flag of each named lock-file entry under one (universe,
/// keep-set) pair.
fn lock_flags(names: &Vec<Option<String>>, all: &Vec<String>, keep: &Vec<String>) -> (r: Vec<
    bool,
>)
    ensures
        r@ == lock_keep_flags(opt_name_seq(names@), name_set(all@), name_set(keep@)),
{
    let ghost nv = opt_name_seq(names@);
    let ghost uni = name_set(all@);
    let ghost keepset = name_set(keep@);
    let mut r: Vec<bool> = Vec::new();
    let mut i: usize = 0;
    while i < names.len()
        invariant
            i <= names@.len(),
            nv == opt_name_seq(names@),
            uni == name_set(all@),
            keepset == name_set(keep@),
            r@.len() == i,
            forall|k: int| 0 <= k < i ==> r@[k] == lock_entry_kept(#[trigger] nv[k], uni, keepset),
        decreases names@.len() - i,
    {
        proof {
            assert(nv[i as int] == (match names@[i as int] {
                Some(s) => Some(s@),
                None => None,
            }));
        }
        match &names[i] {
            None => {
                r.push(true);
            },
            Some(s) => {
                let known = contains_name(all, s);
                let in_keep = contains_name(keep, s);
                r.push(!known || in_keep);
            },
        }
        i += 1;
    }
    proof {
        assert(r@ =~= lock_keep_flags(nv, uni, keepset));
    }
    r
}

/// The keep flag of each named lock-file entry under two (universe,
/// keep-set) pairs at once.
fn lock_flags_two(
    names: &Vec<Option<String>>,
    all1: &Vec<String>,
    keep1: &Vec<String>,
    all2: &Vec<String>,
    keep2: &Vec<String>,
) -> (r: Vec<bool>)
    ensures
        r@ == lock_keep_flags2(
            opt_name_seq(names@),
            name_set(all1@),
            name_set(keep1@),
            name_set(all2@),
            name_set(keep2@),
        ),
{
    let ghost nv = opt_name_seq(names@);
    let ghost uni1 = name_set(all1@);
    let ghost keepset1 = name_set(keep1@);
    let ghost uni2 = name_set(all2@);
    let ghost keepset2 = name_set(keep2@);
    let mut r: Vec<bool> = Vec::new();
    let mut i: usize = 0;
    while i < names.len()
        invariant
            i <= names@.len(),
            nv == opt_name_seq(names@),
            uni1 == name_set(all1@),
            keepset1 == name_set(keep1@),
            uni2 == name_set(all2@),
            keepset2 == name_set(keep2@),
            r@.len() == i,
            forall|k: int|
                0 <= k < i ==> r@[k] == (lock_entry_kept(#[trigger] nv[k], uni1, keepset1)
                    && lock_entry_kept(nv[k], uni2, keepset2)),
        decreases names@.len() - i,
    {
        proof {
            assert(nv[i as int] == (match names@[i as int] {
                Some(s) => Some(s@),
                None => None,
            }));
        }
        match &names[i] {
            None => {
                r.push(true);
            },
            Some(s) => {
                let kept1 = !contains_name(all1, s) || contains_name(keep1, s);
                let kept2 = !contains_name(all2, s) || contains_name(keep2, s);
                r.push(kept1 && kept2);
            },
        }
        i += 1;
    }
    proof {
        assert(r@ =~= lock_keep_flags2(nv, uni1, keepset1, uni2, keepset2));
    }
    r
}

/// Prune the lock file's `package` entries against one (universe, keep-set)
/// pair: entries whose name is unrecognized survive unconditionally;
/// recognized names survive iff kept. Fails iff the text is not valid TOML.
pub fn filter_lockfile(lock_text: &String, all_members: &Vec<String>, keep_members: &Vec<String>) -> (r: Result<
    String,
    ReduceError,
>)
    ensures
        r is Ok <==> toml_parses(lock_text@),
        r matches Ok(t) ==> t@ == lock_filtered_of(
            lock_text@,
            lock_keep_flags(
                lock_names_of(lock_text@),
                name_set(all_members@),
                name_set(keep_members@),
            ),
        ),
        r matches Err(e) ==> e == ReduceError::InvalidLockfileSyntax,
{
    let names = match lock_package_names(lock_text.as_str()) {
        Err(()) => {
            return Err(ReduceError::InvalidLockfileSyntax);
        },
        Ok(n) => n,
    };
    let flags = lock_flags(&names, all_members, keep_members);
    Ok(lock_apply_filter(lock_text.as_str(), &flags))
}

/// A lock-file entry whose name is no recognized name of either universe is
/// retained even by empty keep sets.
pub proof fn lemma_nonmember_entry_kept(
    names: Seq<Option<Seq<char>>>,
    uni1: Set<Seq<char>>,
    keep1: Set<Seq<char>>,
    uni2: Set<Seq<char>>,
    keep2: Set<Seq<char>>,
    i: int,
)
    requires
        0 <= i < names.len(),
        names[i] matches Some(n) ==> !uni1.contains(n) && !uni2.contains(n),
    ensures
        lock_keep_flags(names, uni1, keep1)[i],
        lock_keep_flags2(names, uni1, keep1, uni2, keep2)[i],
{
}

/// The reduction of the explicit-target mode, once the root manifest is
/// known to parse: `root` is its text and `t` the target member's name.
pub open spec fn reduce_explicit_spec(rv: RecipeView, root: Seq<char>, t: Seq<char>) -> Result<
    RecipeView,
    ReduceError,
> {
    let ms = rv.manifests;
    if workspace_dep_names_of(root) is None {
        Err(ReduceError::MissingWorkspaceMembersOrDependenciesTable)
    } else {
        let members = member_names(ms);
        let aliases = seq_set(workspace_dep_names_of(root)->0);
        let targets = Set::<Seq<char>>::empty().insert(t);
        let keep_m = reach_set(graph_of(ms, members), targets);
        let keep_a = reach_set(graph_of(ms, aliases), targets);
        let ms2 = filtered_manifests(with_rewritten_root(ms, t), keep_m);
        match rv.lock_file {
            None => Ok(RecipeView { manifests: ms2, lock_file: None }),
            Some(lock) => if !toml_parses(lock) {
                Err(ReduceError::InvalidLockfileSyntax)
            } else {
                Ok(
                    RecipeView {
                        manifests: ms2,
                        lock_file: Some(
                            lock_filtered_of(
                                lock,
                                lock_keep_flags2(
                                    lock_names_of(lock),
                                    members,
                                    keep_m,
                                    aliases,
                                    keep_a,
                                ),
                            ),
                        ),
                    },
                )
            },
        }
    }
}

/// The reduction of the declared-members mode, once the root manifest is
/// known to parse: the root set is the `workspace.members` array, which is
/// left untouched.
pub open spec fn reduce_declared_spec(rv: RecipeView, root: Seq<char>) -> Result<
    RecipeView,
    ReduceError,
> {
    let ms = rv.manifests;
    if workspace_members_of(root) is None {
        Err(ReduceError::MissingWorkspaceMembersOrDependenciesTable)
    } else {
        let members = member_names(ms);
        let rootset = seq_set(workspace_members_of(root)->0);
        let keep_m = reach_set(graph_of(ms, members), rootset);
        let ms2 = filtered_manifests(ms, keep_m);
        match rv.lock_file {
            None => Ok(RecipeView { manifests: ms2, lock_file: None }),
            Some(lock) => if !toml_parses(lock) {
                Err(ReduceError::InvalidLockfileSyntax)
            } else {
                Ok(
                    RecipeView {
                        manifests: ms2,
                        lock_file: Some(
                            lock_filtered_of(
                                lock,
                                lock_keep_flags(lock_names_of(lock), members, keep_m),
                            ),
                        ),
                    },
                )
            },
        }
    }
}

/// The whole reduction as a function of the recipe's content and the chosen
/// root-set mode.
pub open spec fn reduce_spec(rv: RecipeView, sel: RootChoiceView) -> Result<
    RecipeView,
    ReduceError,
> {
    let ms = rv.manifests;
    if !has_root(ms) {
        Err(ReduceError::MissingRootManifest)
    } else {
        let root = ms[root_index(ms)].contents;
        if !toml_parses(root) {
            Err(ReduceError::InvalidManifestSyntax)
        } else {
            match sel {
                RootChoiceView::Explicit(t) => reduce_explicit_spec(rv, root, t),
                RootChoiceView::Declared => reduce_declared_spec(rv, root),
            }
        }
    }
}

/// The view of a reduction's outcome.
pub open spec fn result_view(r: Result<Recipe, ReduceError>) -> Result<RecipeView, ReduceError> {
    match r {
        Ok(rec) => Ok(rec@),
        Err(e) => Err(e),
    }
}

/// Reduce a recipe to the members the chosen root set needs, directly or
/// transitively: prune the manifest list and the lock file, and — in the
/// explicit-target mode — rewrite the root manifest's `workspace.members`
/// declaration to the target alone.
pub fn reduce_recipe_select(recipe: &Recipe, selector: &RootSelector) -> (r: Result<
    Recipe,
    ReduceError,
>)
    ensures
        result_view(r) == reduce_spec(recipe@, selector@),
{
    let ghost ms = recipe@.manifests;
    let root = match get_root_manifest(recipe) {
        Ok(m) => m,
        Err(e) => {
            return Err(e);
        },
    };
    proof {
        lemma_root_index(ms);
    }
    let all_members = get_workspace_members(recipe);
    match selector {
        RootSelector::FromExplicitTarget(target) => {
            let all_ws_deps = match get_workspace_deps(root) {
                Ok(v) => v,
                Err(e) => {
                    return Err(e);
                },
            };
            let (members_graph, ws_deps_graph) = build_dependencies(
                recipe,
                &all_members,
                &all_ws_deps,
            );
            let mut targets: Vec<String> = Vec::new();
            targets.push(target.clone());
            proof {
                assert(name_seq(targets@) =~= seq![target@]);
                assert(name_set(targets@) =~= Set::<Seq<char>>::empty().insert(target@)) by {
                    assert forall|x: Seq<char>|
                        name_set(targets@).contains(x) implies Set::<Seq<char>>::empty().insert(
                        target@,
                    ).contains(x) by {
                        let k = choose|k: int|
                            0 <= k < name_seq(targets@).len() && #[trigger] name_seq(targets@)[k]
                                == x;
                    }
                    assert(name_seq(targets@)[0] == target@);
                }
            }
            let keep_members = compute_closure(&targets, &members_graph);
            let keep_ws_deps = compute_closure(&targets, &ws_deps_graph);
            let rewritten = match filter_root_members(&recipe.skeleton.manifests, target.as_str()) {
                Ok(v) => v,
                Err(e) => {
                    proof {
                        assert(false);
                    }
                    return Err(e);
                },
            };
            let filtered = filter_manifests(&rewritten, &keep_members);
            let lock_file = match &recipe.skeleton.lock_file {
                None => None,
                Some(text) => {
                    let names = match lock_package_names(text.as_str()) {
                        Err(()) => {
                            return Err(ReduceError::InvalidLockfileSyntax);
                        },
                        Ok(n) => n,
                    };
                    let flags = lock_flags_two(
                        &names,
                        &all_members,
                        &keep_members,
                        &all_ws_deps,
                        &keep_ws_deps,
                    );
                    proof {
                        assert(name_set(all_ws_deps@) == seq_set(
                            workspace_dep_names_of(ms[root_index(ms)].contents)->0,
                        ));
                    }
                    Some(lock_apply_filter(text.as_str(), &flags))
                },
            };
            let out = Recipe { skeleton: Skeleton { manifests: filtered, lock_file } };
            proof {
                assert(out@ =~= (match reduce_spec(recipe@, selector@) {
                    Ok(v) => v,
                    Err(_) => out@,
                }));
            }
            Ok(out)
        },
        RootSelector::FromDeclaredMembers => {
            let declared = match get_declared_members(root) {
                Ok(v) => v,
                Err(e) => {
                    return Err(e);
                },
            };
            let (members_graph, _ws_deps_graph) = build_dependencies(
                recipe,
                &all_members,
                &declared,
            );
            proof {
                assert(name_set(declared@) == seq_set(name_seq(declared@)));
            }
            let keep_members = compute_closure(&declared, &members_graph);
            let filtered = filter_manifests(&recipe.skeleton.manifests, &keep_members);
            let lock_file = match &recipe.skeleton.lock_file {
                None => None,
                Some(text) => {
                    match filter_lockfile(text, &all_members, &keep_members) {
                        Ok(t) => Some(t),
                        Err(e) => {
                            return Err(e);
                        },
                    }
                },
            };
            let out = Recipe { skeleton: Skeleton { manifests: filtered, lock_file } };
            proof {
                assert(out@ =~= (match reduce_spec(recipe@, selector@) {
                    Ok(v) => v,
                    Err(_) => out@,
                }));
            }
            Ok(out)
        },
    }
}

/// Reduce a recipe to one explicit target member and its transitive
/// workspace dependencies.
pub fn reduce_recipe(recipe: &Recipe, target_member: &str) -> (r: Result<Recipe, ReduceError>)
    ensures
        result_view(r) == reduce_spec(recipe@, RootChoiceView::Explicit(target_member@)),
{
    let selector = RootSelector::FromExplicitTarget(target_member.to_owned());
    let r = reduce_recipe_select(recipe, &selector);
    proof {
        assert(selector@ == RootChoiceView::Explicit(target_member@));
    }
    r
}

} // verus!
