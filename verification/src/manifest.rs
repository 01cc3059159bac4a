//! What `cargo nocli` reads out of the project's `Cargo.toml` and `Cargo.lock`, and what it asks
//! `cargo add` for.
//!
//! The files are read by the binary; TOML is parsed by the `toml` crate. What this module adds is
//! which keys are read and what is made of them.

use crate::order::{sorted_set, sorted_set_of};
use crate::text::{
    chars_of, chars_of_strings, join, join_exec, string_of, strings_of, views, views_of_strings,
};
use vstd::prelude::*;

verus! {

/// Why something could not be read out of the project.
#[derive(Debug)]
pub enum ManifestError {
    /// There is no `Cargo.toml` where the command was run.
    NoManifest,
    /// A file is not valid TOML; `message` is what the parser said.
    Unparsable { message: String },
}

impl ManifestError {
    /// The error as the command reports it. `file` names the file that was being read.
    pub fn text(&self, file: &str) -> (r: String)
        ensures
            match self {
                ManifestError::NoManifest => r@
                    == "no Cargo.toml here — run this from the root of your project"@,
                ManifestError::Unparsable { message } => r@ == "parsing "@ + file@ + ": "@
                    + message@,
            },
    {
        match self {
            ManifestError::NoManifest => {
                "no Cargo.toml here — run this from the root of your project".to_string()
            },
            ManifestError::Unparsable { message } => {
                let mut out = chars_of("parsing ");
                crate::text::push_all(&mut out, &chars_of(file));
                crate::text::push_all(&mut out, &chars_of(": "));
                crate::text::push_all(&mut out, &chars_of(message.as_str()));
                string_of(&out)
            },
        }
    }
}

/// Commands that work on a project need its `Cargo.toml`: `has_manifest` says whether there is
/// one where the command was run.
pub fn require_cargo_project(has_manifest: bool) -> (r: Result<(), ManifestError>)
    ensures
        r is Ok <==> has_manifest,
        r matches Err(e) ==> e is NoManifest,
{
    if has_manifest {
        Ok(())
    } else {
        Err(ManifestError::NoManifest)
    }
}

// ---------------------------------------------------------------------------------------------
// TOML, as far as it is read here
// ---------------------------------------------------------------------------------------------

/// A TOML value: a string, an array, a table with its keys in the parser's order, or anything
/// else, whose contents nothing here reads.
#[derive(Debug)]
pub enum TomlValue {
    Str(String),
    Array(Vec<TomlValue>),
    Table(Vec<(String, TomlValue)>),
    Other,
}

#[verifier::external_type_specification]
#[verifier::external_body]
pub struct ExTomlError(toml::de::Error);

#[verifier::external_type_specification]
#[verifier::external_body]
pub struct ExTomlValue(toml::Value);

/// The document the `toml` crate parses `text` into, or `None` where it rejects the text.
pub uninterp spec fn toml_document(text: Seq<char>) -> Option<TomlValue>;

/// `toml::from_str::<toml::Table>`: the contract claims that the parse of a text is fixed by the
/// text, named `toml_document`, and that an error comes exactly where that name holds nothing.
/// The document comes back as a `TomlValue::Table`, each value converted variant for variant.
#[verifier::external_body]
fn parse_toml(text: &str) -> (r: Result<TomlValue, toml::de::Error>)
    ensures
        r matches Ok(doc) ==> toml_document(text@) == Some(doc),
        r is Err ==> toml_document(text@) is None,
{
    toml::from_str::<toml::Table>(text).map(
        |t| TomlValue::Table(t.into_iter().map(|(k, v)| (k, toml_value_of(v))).collect()),
    )
}

/// Converts a parsed `toml::Value` variant for variant; strings, arrays and tables keep what
/// they hold, and every other variant becomes `Other`.
#[verifier::external_body]
fn toml_value_of(v: toml::Value) -> TomlValue {
    match v {
        toml::Value::String(s) => TomlValue::Str(s),
        toml::Value::Array(a) => TomlValue::Array(a.into_iter().map(toml_value_of).collect()),
        toml::Value::Table(t) => TomlValue::Table(
            t.into_iter().map(|(k, v)| (k, toml_value_of(v))).collect(),
        ),
        _ => TomlValue::Other,
    }
}

/// The text of a `toml::de::Error`, as its `Display` writes it. Nothing is claimed of it.
#[verifier::external_body]
fn toml_error_text(e: &toml::de::Error) -> String {
    e.to_string()
}

/// The value stored under `key` in the entries of a table.
pub open spec fn entry(table: Seq<(String, TomlValue)>, key: Seq<char>) -> Option<TomlValue>
    decreases table.len(),
{
    if table.len() == 0 {
        None
    } else if table[0].0@ == key {
        Some(table[0].1)
    } else {
        entry(table.drop_first(), key)
    }
}

/// `value.get(key)`: the value under `key` when `value` is a table that has it.
pub open spec fn get(value: TomlValue, key: Seq<char>) -> Option<TomlValue> {
    match value {
        TomlValue::Table(t) => entry(t@, key),
        _ => None,
    }
}

/// `get` applied to a value that may be missing.
pub open spec fn get_in(value: Option<TomlValue>, key: Seq<char>) -> Option<TomlValue> {
    match value {
        Some(v) => get(v, key),
        None => None,
    }
}

/// The strings among `items`, in order.
pub open spec fn strings_in(items: Seq<TomlValue>) -> Seq<Seq<char>>
    decreases items.len(),
{
    if items.len() == 0 {
        seq![]
    } else {
        let before = strings_in(items.drop_last());
        match items.last() {
            TomlValue::Str(s) => before.push(s@),
            _ => before,
        }
    }
}

fn entry_exec<'a>(table: &'a Vec<(String, TomlValue)>, key: &str) -> (r: Option<&'a TomlValue>)
    ensures
        r matches Some(v) ==> entry(table@, key@) == Some(*v),
        r is None ==> entry(table@, key@) is None,
{
    let key_s = key.to_string();
    let mut k: usize = 0;
    assert(table@.skip(0) =~= table@);
    while k < table.len()
        invariant
            k <= table@.len(),
            key_s@ == key@,
            entry(table@.skip(k as int), key@) == entry(table@, key@),
        decreases table.len() - k,
    {
        assert(table@.skip(k as int).drop_first() =~= table@.skip(k + 1));
        assert(table@.skip(k as int)[0] == table@[k as int]);
        if table[k].0 == key_s {
            return Some(&table[k].1);
        }
        k += 1;
    }
    None
}

fn get_exec<'a>(value: &'a TomlValue, key: &str) -> (r: Option<&'a TomlValue>)
    ensures
        r matches Some(v) ==> get(*value, key@) == Some(*v),
        r is None ==> get(*value, key@) is None,
{
    match value {
        TomlValue::Table(t) => entry_exec(t, key),
        _ => None,
    }
}

fn strings_in_exec(items: &Vec<TomlValue>) -> (r: Vec<Vec<char>>)
    ensures
        views(r@) == strings_in(items@),
{
    let mut out: Vec<Vec<char>> = Vec::new();
    let mut k: usize = 0;
    while k < items.len()
        invariant
            k <= items@.len(),
            views(out@) == strings_in(items@.take(k as int)),
        decreases items.len() - k,
    {
        assert(items@.take(k + 1).drop_last() =~= items@.take(k as int));
        let ghost before = out@;
        match &items[k] {
            TomlValue::Str(s) => {
                out.push(chars_of(s.as_str()));
                assert(views(out@) =~= views(before).push(s@));
            },
            _ => {},
        }
        k += 1;
    }
    assert(items@.take(items@.len() as int) =~= items@);
    out
}

fn parse(text: &str) -> (r: Result<TomlValue, ManifestError>)
    ensures
        r matches Ok(doc) ==> toml_document(text@) == Some(doc),
        r is Err ==> toml_document(text@) is None,
        r matches Err(e) ==> e is Unparsable,
{
    match parse_toml(text) {
        Ok(doc) => Ok(doc),
        Err(e) => Err(ManifestError::Unparsable { message: toml_error_text(&e) }),
    }
}

// ---------------------------------------------------------------------------------------------
// What is read
// ---------------------------------------------------------------------------------------------

/// The features a manifest asks of `nocomponents`: the strings in
/// `dependencies.nocomponents.features`, sorted and each once; none where that is not an array.
pub open spec fn features_of(doc: TomlValue) -> Seq<Seq<char>> {
    match get_in(get_in(get(doc, "dependencies"@), "nocomponents"@), "features"@) {
        Some(TomlValue::Array(a)) => sorted_set(strings_in(a@)),
        _ => seq![],
    }
}

/// The features the project's `Cargo.toml`, whose text is `manifest`, already asks of
/// `nocomponents`. A second `add` unions with these, so as not to switch off what the first one
/// switched on.
#[verifier::rlimit(40)]
pub fn features_in(manifest: &str) -> (r: Result<Vec<String>, ManifestError>)
    ensures
        r is Ok <==> toml_document(manifest@) is Some,
        r matches Ok(fs) ==> views_of_strings(fs@) == features_of(toml_document(manifest@)->0)
            && crate::order::strictly_sorted(views_of_strings(fs@)),
        r matches Err(e) ==> e is Unparsable,
{
    let doc = match parse(manifest) {
        Ok(d) => d,
        Err(e) => return Err(e),
    };
    let found = match get_exec(&doc, "dependencies") {
        Some(d) => match get_exec(d, "nocomponents") {
            Some(n) => match get_exec(n, "features") {
                Some(TomlValue::Array(a)) => sorted_set_of(strings_in_exec(a)),
                _ => Vec::new(),
            },
            None => Vec::new(),
        },
        None => Vec::new(),
    };
    proof {
        if views(found@).len() == 0 {
            assert(views(found@) =~= Seq::<Seq<char>>::empty());
        }
    }
    Ok(strings_of(&found))
}

/// Whether a manifest takes `nocomponents` by path: `dependencies.nocomponents.path` is there.
pub open spec fn path_dependency_of(doc: TomlValue) -> bool {
    get_in(get_in(get(doc, "dependencies"@), "nocomponents"@), "path"@) is Some
}

/// Whether the project's `nocomponents` is a path dependency, a checkout in other words, given
/// the text of its `Cargo.toml`.
pub fn is_path_dependency_in(manifest: &str) -> (r: Result<bool, ManifestError>)
    ensures
        r is Ok <==> toml_document(manifest@) is Some,
        r matches Ok(b) ==> b == path_dependency_of(toml_document(manifest@)->0),
        r matches Err(e) ==> e is Unparsable,
{
    let doc = match parse(manifest) {
        Ok(d) => d,
        Err(e) => return Err(e),
    };
    let found = match get_exec(&doc, "dependencies") {
        Some(d) => match get_exec(d, "nocomponents") {
            Some(n) => get_exec(n, "path").is_some(),
            None => false,
        },
        None => false,
    };
    Ok(found)
}

/// The first of `packages` whose `name` is the string `nocomponents`.
pub open spec fn first_named(packages: Seq<TomlValue>) -> Option<TomlValue>
    decreases packages.len(),
{
    if packages.len() == 0 {
        None
    } else if get(packages[0], "name"@) matches Some(TomlValue::Str(n)) && n@ == "nocomponents"@ {
        Some(packages[0])
    } else {
        first_named(packages.drop_first())
    }
}

/// The version a lock file resolved `nocomponents` to: the `version` string of the first
/// `package` entry named `nocomponents`.
pub open spec fn locked_version_of(doc: TomlValue) -> Option<Seq<char>> {
    match get(doc, "package"@) {
        Some(TomlValue::Array(a)) => match get_in(first_named(a@), "version"@) {
            Some(TomlValue::Str(v)) => Some(v@),
            _ => None,
        },
        _ => None,
    }
}

fn first_named_exec<'a>(packages: &'a Vec<TomlValue>) -> (r: Option<&'a TomlValue>)
    ensures
        r matches Some(v) ==> first_named(packages@) == Some(*v),
        r is None ==> first_named(packages@) is None,
{
    let wanted = "nocomponents".to_string();
    let mut k: usize = 0;
    assert(packages@.skip(0) =~= packages@);
    while k < packages.len()
        invariant
            k <= packages@.len(),
            wanted@ == "nocomponents"@,
            first_named(packages@.skip(k as int)) == first_named(packages@),
        decreases packages.len() - k,
    {
        assert(packages@.skip(k as int).drop_first() =~= packages@.skip(k + 1));
        assert(packages@.skip(k as int)[0] == packages@[k as int]);
        let named = match get_exec(&packages[k], "name") {
            Some(TomlValue::Str(n)) => *n == wanted,
            _ => false,
        };
        if named {
            return Some(&packages[k]);
        }
        k += 1;
    }
    None
}

/// The exact `nocomponents` a project compiles against, given the text of its `Cargo.lock`:
/// `None` when the lock has not resolved it.
#[verifier::rlimit(40)]
pub fn locked_version_in(lock: &str) -> (r: Result<Option<String>, ManifestError>)
    ensures
        r is Ok <==> toml_document(lock@) is Some,
        r matches Ok(v) ==> match v {
            Some(s) => locked_version_of(toml_document(lock@)->0) == Some(s@),
            None => locked_version_of(toml_document(lock@)->0) is None,
        },
        r matches Err(e) ==> e is Unparsable,
{
    let doc = match parse(lock) {
        Ok(d) => d,
        Err(e) => return Err(e),
    };
    let found = match get_exec(&doc, "package") {
        Some(TomlValue::Array(a)) => match first_named_exec(a) {
            Some(p) => match get_exec(p, "version") {
                Some(TomlValue::Str(v)) => Some(v.clone()),
                _ => None,
            },
            None => None,
        },
        _ => None,
    };
    Ok(found)
}

// ---------------------------------------------------------------------------------------------
// What `cargo add` is asked for
// ---------------------------------------------------------------------------------------------

/// The features as `cargo add --features` takes them: comma-separated.
pub fn feature_list(features: &Vec<String>) -> (r: String)
    ensures
        r@ == join(views_of_strings(features@), ","@),
{
    let fs = chars_of_strings(features);
    string_of(&join_exec(&fs, &chars_of(",")))
}

/// The arguments of the `cargo` command that adds `nocomponents` with `features`; a checkout's
/// `--path` follows them when the install is from one.
pub fn add_arguments(features: &Vec<String>) -> (r: Vec<String>)
    ensures
        views_of_strings(r@) == seq![
            "add"@,
            "nocomponents"@,
            "--features"@,
            join(views_of_strings(features@), ","@),
        ],
{
    let mut args: Vec<String> = Vec::new();
    args.push("add".to_string());
    args.push("nocomponents".to_string());
    args.push("--features".to_string());
    args.push(feature_list(features));
    assert(views_of_strings(args@) =~= seq![
        "add"@,
        "nocomponents"@,
        "--features"@,
        join(views_of_strings(features@), ","@),
    ]);
    args
}

} // verus!
