use reduce_recipe::recipe::Manifest;
use reduce_recipe::recipe::Recipe;
use reduce_recipe::recipe::ReduceError;
use reduce_recipe::recipe::RootSelector;
use reduce_recipe::recipe::Skeleton;
use reduce_recipe::recipe::extract_crate_name;
use reduce_recipe::recipe::filter_lockfile;
use reduce_recipe::recipe::get_workspace_deps;
use reduce_recipe::recipe::get_workspace_members;
use reduce_recipe::recipe::reduce_recipe;
use reduce_recipe::recipe::reduce_recipe_select;

const ROOT_TOML: &str = "[workspace]\nmembers = [\"bar\", \"foo\"]\n\n[workspace.dependencies]\nserde = \"1\"\n";

const BAR_TOML: &str = "[package]\nname = \"bar\"\nversion = \"0.1.0\"\n";

const FOO_TOML: &str = "[package]\nname = \"foo\"\nversion = \"0.1.0\"\n\n[dependencies]\nbar = { path = \"../bar\" }\nserde = { workspace = true }\n";

const LOCK_TOML: &str = "version = 3\n\n[[package]]\nname = \"bar\"\nversion = \"0.1.0\"\n\n[[package]]\nname = \"foo\"\nversion = \"0.1.0\"\n\n[[package]]\nname = \"serde\"\nversion = \"1.0.0\"\n";

fn manifest(path: &str, contents: &str) -> Manifest {
    Manifest {
        relative_path: path.to_owned(),
        contents: contents.to_owned(),
    }
}

fn workspace_recipe() -> Recipe {
    Recipe {
        skeleton: Skeleton {
            manifests: vec![
                manifest("Cargo.toml", ROOT_TOML),
                manifest("bar/Cargo.toml", BAR_TOML),
                manifest("foo/Cargo.toml", FOO_TOML),
            ],
            lock_file: Some(LOCK_TOML.to_owned()),
        },
    }
}

/// The root manifest text with its members array replaced by `[target]`,
/// produced by the same structured-text editor the library relies on.
fn rewritten_root(contents: &str, target: &str) -> String {
    let doc: toml_edit::Document<String> = contents.parse().unwrap();
    let mut doc = doc.into_mut();
    let mut arr = toml_edit::Array::new();
    arr.push(target);
    doc["workspace"]["members"] = toml_edit::Item::Value(toml_edit::Value::Array(arr));
    doc.to_string()
}

/// The lock text with only the `package` entries whose name is in `kept`
/// (entries without a name always stay), produced independently of the
/// library's own filtering path.
fn lock_with_only(text: &str, kept: &[&str]) -> String {
    let mut doc: toml_edit::DocumentMut = text.parse().unwrap();
    if let Some(toml_edit::Item::ArrayOfTables(array)) = doc.get_mut("package") {
        array.retain(|pkg| match pkg.get("name").and_then(|v| v.as_str()) {
            None => true,
            Some(n) => kept.contains(&n),
        });
    }
    doc.to_string()
}

#[test]
fn test_reduce_recipe_without_member_dependency() {
    let recipe = workspace_recipe();
    let reduced = reduce_recipe(&recipe, "bar").unwrap();

    let want_reduced = Recipe {
        skeleton: Skeleton {
            manifests: vec![
                manifest("Cargo.toml", &rewritten_root(ROOT_TOML, "bar")),
                manifest("bar/Cargo.toml", BAR_TOML),
            ],
            lock_file: Some(lock_with_only(LOCK_TOML, &["bar"])),
        },
    };

    assert_eq!(
        reduced, want_reduced,
        "reduced recipe does not match expected output"
    );
}

#[test]
fn test_reduce_recipe_with_member_dependency() {
    let recipe = workspace_recipe();
    let reduced = reduce_recipe(&recipe, "foo").unwrap();

    let want_reduced = Recipe {
        skeleton: Skeleton {
            manifests: vec![
                manifest("Cargo.toml", &rewritten_root(ROOT_TOML, "foo")),
                manifest("bar/Cargo.toml", BAR_TOML),
                manifest("foo/Cargo.toml", FOO_TOML),
            ],
            lock_file: Some(lock_with_only(LOCK_TOML, &["bar", "foo", "serde"])),
        },
    };

    assert_eq!(
        reduced, want_reduced,
        "Reduced recipe does not match expected output"
    );
}

#[test]
fn test_rewrite_replaces_members_array() {
    let recipe = workspace_recipe();
    let reduced = reduce_recipe(&recipe, "bar").unwrap();
    let root = &reduced.skeleton.manifests[0];
    assert!(root.contents.contains("members = [\"bar\"]"));
    assert!(!root.contents.contains("\"foo\""));
    // the rest of the root manifest is untouched
    assert!(root.contents.contains("[workspace.dependencies]"));
    assert!(root.contents.contains("serde = \"1\""));
}

#[test]
fn test_target_with_no_workspace_dependencies() {
    // a target member that depends on nothing yields exactly {root, target}
    let recipe = workspace_recipe();
    let reduced = reduce_recipe(&recipe, "bar").unwrap();
    assert_eq!(reduced.skeleton.manifests.len(), 2);
    assert_eq!(reduced.skeleton.manifests[0].relative_path, "Cargo.toml");
    assert_eq!(reduced.skeleton.manifests[1].relative_path, "bar/Cargo.toml");
}

#[test]
fn test_reduce_twice_is_identity() {
    let recipe = workspace_recipe();
    let once = reduce_recipe(&recipe, "bar").unwrap();
    let twice = reduce_recipe(&once, "bar").unwrap();
    assert_eq!(once, twice);
}

#[test]
fn test_unrecognized_lock_entries_survive() {
    // a third-party entry that is neither a member nor a workspace alias
    // stays even when everything else is pruned away
    let lock = "version = 3\n\n[[package]]\nname = \"foo\"\nversion = \"0.1.0\"\n\n[[package]]\nname = \"rand\"\nversion = \"0.8.0\"\n";
    let mut recipe = workspace_recipe();
    recipe.skeleton.lock_file = Some(lock.to_owned());
    let reduced = reduce_recipe(&recipe, "bar").unwrap();
    let out = reduced.skeleton.lock_file.unwrap();
    assert!(out.contains("rand"));
    assert!(!out.contains("foo"));
}

#[test]
fn test_third_party_name_collision_is_matched_by_string_identity() {
    // a registry crate that happens to share a workspace member's name is
    // matched by name alone, so it is pruned with the member: an accepted
    // approximation of this design, not a defect to paper over
    let lock = "version = 3\n\n[[package]]\nname = \"foo\"\nversion = \"99.0.0\"\n";
    let mut recipe = workspace_recipe();
    recipe.skeleton.lock_file = Some(lock.to_owned());
    let reduced = reduce_recipe(&recipe, "bar").unwrap();
    let out = reduced.skeleton.lock_file.unwrap();
    assert!(!out.contains("foo"));
}

#[test]
fn test_declared_members_mode_keeps_members_array() {
    let mut recipe = workspace_recipe();
    // declare only bar; foo stays listed in no manifest's members array
    let root = "[workspace]\nmembers = [\"bar\"]\n\n[workspace.dependencies]\nserde = \"1\"\n";
    recipe.skeleton.manifests[0] = manifest("Cargo.toml", root);
    let reduced = reduce_recipe_select(&recipe, &RootSelector::FromDeclaredMembers).unwrap();
    // the members array is left untouched in this mode
    assert_eq!(reduced.skeleton.manifests[0].contents, root);
    // foo is pruned, bar kept
    assert_eq!(reduced.skeleton.manifests.len(), 2);
    assert_eq!(reduced.skeleton.manifests[1].relative_path, "bar/Cargo.toml");
}

#[test]
fn test_missing_root_manifest() {
    let recipe = Recipe {
        skeleton: Skeleton {
            manifests: vec![manifest("bar/Cargo.toml", BAR_TOML)],
            lock_file: None,
        },
    };
    assert_eq!(
        reduce_recipe(&recipe, "bar"),
        Err(ReduceError::MissingRootManifest)
    );
}

#[test]
fn test_invalid_root_manifest_syntax() {
    let recipe = Recipe {
        skeleton: Skeleton {
            manifests: vec![manifest("Cargo.toml", "this = is not [ valid toml")],
            lock_file: None,
        },
    };
    assert_eq!(
        reduce_recipe(&recipe, "bar"),
        Err(ReduceError::InvalidManifestSyntax)
    );
}

#[test]
fn test_missing_workspace_dependencies_table() {
    let recipe = Recipe {
        skeleton: Skeleton {
            manifests: vec![manifest("Cargo.toml", "[workspace]\nmembers = [\"bar\"]\n")],
            lock_file: None,
        },
    };
    assert_eq!(
        reduce_recipe(&recipe, "bar"),
        Err(ReduceError::MissingWorkspaceMembersOrDependenciesTable)
    );
}

#[test]
fn test_missing_workspace_members_array() {
    let recipe = Recipe {
        skeleton: Skeleton {
            manifests: vec![manifest(
                "Cargo.toml",
                "[workspace.dependencies]\nserde = \"1\"\n",
            )],
            lock_file: None,
        },
    };
    assert_eq!(
        reduce_recipe_select(&recipe, &RootSelector::FromDeclaredMembers),
        Err(ReduceError::MissingWorkspaceMembersOrDependenciesTable)
    );
}

#[test]
fn test_root_workspace_item_not_a_table() {
    // a root that parses but whose `workspace` item can take no `members`
    // entry is refused, not panicked on
    let scalar = vec![manifest("Cargo.toml", "workspace = 3\n")];
    assert_eq!(
        reduce_recipe::recipe::filter_root_members(&scalar, "bar"),
        Err(ReduceError::InvalidManifestSyntax)
    );
    let array_of_tables = vec![manifest("Cargo.toml", "[[workspace]]\nx = 1\n")];
    assert_eq!(
        reduce_recipe::recipe::filter_root_members(&array_of_tables, "bar"),
        Err(ReduceError::InvalidManifestSyntax)
    );
    // an absent `workspace` table is no obstacle: it is created
    let absent = vec![manifest("Cargo.toml", "")];
    let rewritten = reduce_recipe::recipe::filter_root_members(&absent, "bar").unwrap();
    assert!(rewritten[0].contents.contains("members = [\"bar\"]"));
}

#[test]
fn test_reduce_with_scalar_workspace_item() {
    // in the full reduction the workspace.dependencies lookup refuses such a
    // root before any rewrite is attempted
    let recipe = Recipe {
        skeleton: Skeleton {
            manifests: vec![
                manifest("Cargo.toml", "workspace = 3\n"),
                manifest("bar/Cargo.toml", BAR_TOML),
            ],
            lock_file: None,
        },
    };
    assert_eq!(
        reduce_recipe(&recipe, "bar"),
        Err(ReduceError::MissingWorkspaceMembersOrDependenciesTable)
    );
}

#[test]
fn test_invalid_lockfile_syntax() {
    let mut recipe = workspace_recipe();
    recipe.skeleton.lock_file = Some("not [ valid toml".to_owned());
    assert_eq!(
        reduce_recipe(&recipe, "bar"),
        Err(ReduceError::InvalidLockfileSyntax)
    );
}

#[test]
fn test_unparsable_member_manifest_is_not_fatal() {
    // a broken non-root manifest aborts nothing: it yields no crate name and
    // no edges, and — like any manifest without a name — survives pruning
    let mut recipe = workspace_recipe();
    recipe
        .skeleton
        .manifests
        .push(manifest("broken/Cargo.toml", "this = is not [ valid toml"));
    let reduced = reduce_recipe(&recipe, "bar").unwrap();
    assert_eq!(reduced.skeleton.manifests.len(), 3);
    assert_eq!(
        reduced.skeleton.manifests[2].relative_path,
        "broken/Cargo.toml"
    );
}

#[test]
fn test_extract_crate_name() {
    assert_eq!(
        extract_crate_name(&manifest("bar/Cargo.toml", BAR_TOML)),
        Some("bar".to_owned())
    );
    assert_eq!(extract_crate_name(&manifest("Cargo.toml", ROOT_TOML)), None);
    assert_eq!(
        extract_crate_name(&manifest("x/Cargo.toml", "not [ toml")),
        None
    );
}

#[test]
fn test_get_workspace_members() {
    let recipe = workspace_recipe();
    let mut members = get_workspace_members(&recipe);
    members.sort();
    assert_eq!(members, vec!["bar".to_owned(), "foo".to_owned()]);
}

#[test]
fn test_get_workspace_deps() {
    let deps = get_workspace_deps(&manifest("Cargo.toml", ROOT_TOML)).unwrap();
    assert_eq!(deps, vec!["serde".to_owned()]);
}

#[test]
fn test_filter_lockfile_single_pass() {
    let all = vec!["bar".to_owned(), "foo".to_owned()];
    let keep = vec!["bar".to_owned()];
    let out = filter_lockfile(&LOCK_TOML.to_owned(), &all, &keep).unwrap();
    assert!(out.contains("bar"));
    assert!(!out.contains("foo"));
    assert!(out.contains("serde"));
    assert_eq!(out, lock_with_only(LOCK_TOML, &["bar", "serde"]));
}

#[test]
fn test_get_root_manifest() {
    let recipe = workspace_recipe();
    let root = reduce_recipe::recipe::get_root_manifest(&recipe).unwrap();
    assert_eq!(root.relative_path, "Cargo.toml");
    assert_eq!(root.contents, ROOT_TOML);

    let no_root = Recipe {
        skeleton: Skeleton {
            manifests: vec![manifest("bar/Cargo.toml", BAR_TOML)],
            lock_file: None,
        },
    };
    assert_eq!(
        reduce_recipe::recipe::get_root_manifest(&no_root).unwrap_err(),
        ReduceError::MissingRootManifest
    );
}

#[test]
fn test_filter_manifests_keeps_root_and_kept_members() {
    let recipe = workspace_recipe();
    let keep = vec!["foo".to_owned()];
    let filtered = reduce_recipe::recipe::filter_manifests(&recipe.skeleton.manifests, &keep);
    let paths: Vec<&str> = filtered.iter().map(|m| m.relative_path.as_str()).collect();
    assert_eq!(paths, vec!["Cargo.toml", "foo/Cargo.toml"]);
}

#[test]
fn test_filter_root_members_rewrites_only_root() {
    let recipe = workspace_recipe();
    let rewritten =
        reduce_recipe::recipe::filter_root_members(&recipe.skeleton.manifests, "bar").unwrap();
    assert_eq!(rewritten.len(), 3);
    assert_eq!(rewritten[0].contents, rewritten_root(ROOT_TOML, "bar"));
    assert_eq!(rewritten[1].contents, BAR_TOML);
    assert_eq!(rewritten[2].contents, FOO_TOML);
}

#[test]
fn test_build_dependencies_edges() {
    let recipe = workspace_recipe();
    let members = get_workspace_members(&recipe);
    let aliases = vec!["serde".to_owned()];
    let (members_graph, ws_deps_graph) =
        reduce_recipe::recipe::build_dependencies(&recipe, &members, &aliases);
    // foo -> bar in the member graph; serde is no member edge
    assert_eq!(
        members_graph.get(&"foo".to_owned()).unwrap(),
        &vec!["bar".to_owned()]
    );
    assert_eq!(members_graph.get(&"bar".to_owned()).unwrap(), &Vec::<String>::new());
    // foo -> serde in the alias graph; bar is no alias edge
    assert_eq!(
        ws_deps_graph.get(&"foo".to_owned()).unwrap(),
        &vec!["serde".to_owned()]
    );
    assert_eq!(ws_deps_graph.get(&"bar".to_owned()).unwrap(), &Vec::<String>::new());
    // the root manifest has no crate name and is no graph node
    assert!(members_graph.get(&"root".to_owned()).is_none());
}

#[test]
fn test_describe_errors() {
    assert_eq!(
        ReduceError::MissingRootManifest.describe(),
        "no root Cargo.toml found"
    );
    assert_eq!(
        ReduceError::InvalidManifestSyntax.describe(),
        "root Cargo.toml is not valid toml"
    );
    assert_eq!(
        ReduceError::MissingWorkspaceMembersOrDependenciesTable.describe(),
        "workspace members or dependencies table is missing or malformed"
    );
    assert_eq!(
        ReduceError::InvalidLockfileSyntax.describe(),
        "lock file is not valid toml"
    );
}
