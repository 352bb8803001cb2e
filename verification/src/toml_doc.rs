//! The trusted boundary around `toml_edit`.
//!
//! Manifests and lock files are carried as raw structured text; `toml_edit`
//! parses and re-serializes them. Each query below is deterministic — a
//! function of the text alone — so its result is given a name (an
//! uninterpreted spec function), and each wrapper's contract ties the value it
//! returns to that name. Everything that decides what to do with these values
//! is verified code elsewhere in the crate.
use vstd::prelude::*;

use crate::names::name_seq;

verus! {

/// Whether the text parses as a TOML document (`str::parse::<Document<String>>` returns `Ok`).
pub uninterp spec fn toml_parses(s: Seq<char>) -> bool;

/// The `package.name` string of the document, `None` when the text does not
/// parse or the field is absent or not a string.
pub uninterp spec fn package_name_of(s: Seq<char>) -> Option<Seq<char>>;

/// The keys of the document's `dependencies` and `dev-dependencies` tables, in
/// order; empty when the text does not parse.
pub uninterp spec fn dep_names_of(s: Seq<char>) -> Seq<Seq<char>>;

/// The keys of the document's `workspace.dependencies` table, in order;
/// `None` when that path is absent or not a table. Meaningful only when the
/// text parses.
pub uninterp spec fn workspace_dep_names_of(s: Seq<char>) -> Option<Seq<Seq<char>>>;

/// The string entries of the document's `workspace.members` array, in order;
/// `None` when that path is absent or not an array. Meaningful only when the
/// text parses.
pub uninterp spec fn workspace_members_of(s: Seq<char>) -> Option<Seq<Seq<char>>>;

/// Whether the document's top-level `workspace` item, if present, is a table
/// or an inline table, so that a `members` entry can be set under it.
/// Meaningful only when the text parses.
pub uninterp spec fn members_rewritable(s: Seq<char>) -> bool;

/// The document re-serialized after its `workspace.members` array is replaced
/// by the singleton array holding `target`. Meaningful only when the text
/// parses and its `workspace` item admits a `members` entry.
pub uninterp spec fn members_rewrite_of(s: Seq<char>, target: Seq<char>) -> Seq<char>;

/// The `name` string of each entry of the document's `package` array of
/// tables, in order (`None` where the field is absent or not a string); empty
/// when the document has no such array. Meaningful only when the text parses.
pub uninterp spec fn lock_names_of(s: Seq<char>) -> Seq<Option<Seq<char>>>;

/// The document re-serialized after entry `i` of its `package` array of
/// tables is retained iff `keep[i]`. Meaningful only when the text parses and
/// `keep` has one flag per entry.
pub uninterp spec fn lock_filtered_of(s: Seq<char>, keep: Seq<bool>) -> Seq<char>;

/// The views of a vector of optional names.
pub open spec fn opt_name_seq(names: Seq<Option<String>>) -> Seq<Option<Seq<char>>> {
    names.map_values(
        |o: Option<String>|
            match o {
                Some(s) => Some(s@),
                None => None,
            },
    )
}

/// Relies on `toml_edit::Document::<String>::from_str` for parsing and
/// `Item::get` / `Item::as_str` for the lookup of `package.name`.
#[verifier::external_body]
pub fn parse_package_name(contents: &str) -> (r: Option<String>)
    ensures
        r is Some <==> package_name_of(contents@) is Some,
        r is Some ==> r->0@ == package_name_of(contents@)->0,
{
    let doc: toml_edit::Document<String> = contents.parse().ok()?;
    doc.as_item().get("package")?.get("name")?.as_str().map(str::to_owned)
}

/// Relies on `toml_edit::Document::<String>::from_str`, `Item::get`,
/// `Item::as_table` and `Table::iter` for the key lists of the
/// `dependencies` and `dev-dependencies` tables.
#[verifier::external_body]
pub fn parse_dep_names(contents: &str) -> (r: Vec<String>)
    ensures
        name_seq(r@) == dep_names_of(contents@),
{
    let mut names = Vec::new();
    if let Ok(doc) = contents.parse::<toml_edit::Document<String>>() {
        for key in ["dependencies", "dev-dependencies"] {
            if let Some(table) = doc.as_item().get(key).and_then(|i| i.as_table()) {
                names.extend(table.iter().map(|(name, _)| name.to_owned()));
            }
        }
    }
    names
}

/// Relies on `toml_edit::Document::<String>::from_str`, `Item::get`,
/// `Item::as_table` and `Table::iter` for the key list of the
/// `workspace.dependencies` table. `Err` reports a parse failure. `Item::get`
/// reaches `dependencies` only through a table or inline-table `workspace`
/// item, so finding the table shows that item is table-like.
#[verifier::external_body]
pub fn parse_workspace_dep_names(contents: &str) -> (r: Result<Option<Vec<String>>, ()>)
    ensures
        r is Ok <==> toml_parses(contents@),
        r matches Ok(names) ==> (names is Some <==> workspace_dep_names_of(contents@) is Some),
        r matches Ok(names) ==> (names matches Some(v) ==> name_seq(v@)
            == workspace_dep_names_of(contents@)->0),
        r matches Ok(names) ==> (names is Some ==> members_rewritable(contents@)),
{
    let doc: toml_edit::Document<String> = contents.parse().map_err(|_| ())?;
    let table = doc.as_item().get("workspace").and_then(|w| w.get("dependencies")).and_then(
        |d| d.as_table(),
    );
    Ok(table.map(|t| t.iter().map(|(name, _)| name.to_owned()).collect()))
}

/// Relies on `toml_edit::Document::<String>::from_str`, `Item::get`,
/// `Item::as_array` and `Array::iter` for the string entries of the
/// `workspace.members` array. `Err` reports a parse failure.
#[verifier::external_body]
pub fn parse_workspace_members(contents: &str) -> (r: Result<Option<Vec<String>>, ()>)
    ensures
        r is Ok <==> toml_parses(contents@),
        r matches Ok(names) ==> (names is Some <==> workspace_members_of(contents@) is Some),
        r matches Ok(names) ==> (names matches Some(v) ==> name_seq(v@)
            == workspace_members_of(contents@)->0),
{
    let doc: toml_edit::Document<String> = contents.parse().map_err(|_| ())?;
    let arr = doc.as_item().get("workspace").and_then(|w| w.get("members")).and_then(
        |m| m.as_array(),
    );
    Ok(arr.map(|a| a.iter().filter_map(|v| v.as_str().map(str::to_owned)).collect()))
}

/// Relies on `toml_edit::Document::into_mut`, index assignment on
/// `DocumentMut` and `Display` for `DocumentMut` to replace the
/// `workspace.members` array by `[target]` and re-serialize, and on
/// `Item::is_table_like` to refuse a `workspace` item that no `members`
/// entry can be set under (the indexed assignment would panic there).
/// `None` reports a parse failure or such a `workspace` item. Replacing that
/// one entry leaves the `[package]` table as it was, so the rewritten
/// document yields the same `package.name`.
#[verifier::external_body]
pub fn rewrite_members(contents: &str, target: &str) -> (r: Option<String>)
    ensures
        r is Some <==> (toml_parses(contents@) && members_rewritable(contents@)),
        r is Some ==> r->0@ == members_rewrite_of(contents@, target@),
        r is Some ==> package_name_of(r->0@) == package_name_of(contents@),
{
    let doc: toml_edit::Document<String> = contents.parse().ok()?;
    let mut doc = doc.into_mut();
    if let Some(item) = doc.get("workspace") {
        if !item.is_table_like() {
            return None;
        }
    }
    let mut arr = toml_edit::Array::new();
    arr.push(target);
    doc["workspace"]["members"] = toml_edit::Item::Value(toml_edit::Value::Array(arr));
    Some(doc.to_string())
}

/// Relies on `toml_edit::Document::<String>::from_str`, `Item::as_array_of_tables`,
/// `ArrayOfTables::iter`, `Table::get` and `Item::as_str` for the `name` field
/// of each `package` entry. `Err` reports a parse failure.
#[verifier::external_body]
pub fn lock_package_names(text: &str) -> (r: Result<Vec<Option<String>>, ()>)
    ensures
        r is Ok <==> toml_parses(text@),
        r matches Ok(names) ==> opt_name_seq(names@) == lock_names_of(text@),
{
    let doc: toml_edit::Document<String> = text.parse().map_err(|_| ())?;
    let entries = doc.as_item().get("package").and_then(|p| p.as_array_of_tables());
    Ok(match entries {
        Some(array) => array.iter().map(
            |pkg| pkg.get("name").and_then(|v| v.as_str()).map(str::to_owned),
        ).collect(),
        None => Vec::new(),
    })
}

/// Relies on `toml_edit::DocumentMut::from_str`, `Table::get_mut`,
/// `ArrayOfTables::retain` and `Display` for `DocumentMut` to retain the
/// `package` entries whose flag is set and re-serialize. The flags are read
/// in entry order, one per entry.
#[verifier::external_body]
pub fn lock_apply_filter(text: &str, keep: &Vec<bool>) -> (r: String)
    requires
        toml_parses(text@),
        keep@.len() == lock_names_of(text@).len(),
    ensures
        r@ == lock_filtered_of(text@, keep@),
{
    let mut doc: toml_edit::DocumentMut = text.parse().unwrap();
    if let Some(toml_edit::Item::ArrayOfTables(array)) = doc.get_mut("package") {
        let mut flags = keep.iter();
        array.retain(|_| *flags.next().unwrap());
    }
    doc.to_string()
}

} // verus!
