//! The YAML front matter of a note, read with `yaml_rust`.

use vstd::prelude::*;
use yaml_rust::{ScanError, Yaml, YamlEmitter, YamlLoader};

verus! {

#[verifier::external_type_specification]
#[verifier::external_body]
pub struct ExYaml(Yaml);

#[verifier::external_type_specification]
#[verifier::external_body]
pub struct ExScanError(ScanError);

/// The documents that `YamlLoader::load_from_str` reads from a text, or the scan error
/// it reports; a function of the text alone.
pub uninterp spec fn yaml_documents(text: Seq<char>) -> Result<Seq<Yaml>, ScanError>;

/// `YamlLoader::load_from_str`: the documents of `text`, or the scan error.
#[verifier::external_body]
pub fn load_yaml(text: &str) -> (r: Result<Vec<Yaml>, ScanError>)
    ensures
        match r {
            Ok(docs) => yaml_documents(text@) == Ok::<Seq<Yaml>, ScanError>(docs@),
            Err(e) => yaml_documents(text@) == Err::<Seq<Yaml>, ScanError>(e),
        },
{
    YamlLoader::load_from_str(text)
}

/// `Yaml::clone` (derived): the copy equals the value it was made from.
#[verifier::external_body]
pub fn yaml_clone(y: &Yaml) -> (r: Yaml)
    ensures
        r == *y,
{
    y.clone()
}

/// Whether a YAML value is a hash (a mapping).
pub uninterp spec fn yaml_is_hash(y: Yaml) -> bool;

/// The number of entries of a YAML hash.
pub uninterp spec fn yaml_hash_len(y: Yaml) -> nat;

/// The YAML hash `y` after `LinkedHashMap::insert` of the string key `key` with the
/// string value `value`: a function of its arguments alone.
pub uninterp spec fn yaml_with_entry(y: Yaml, key: Seq<char>, value: Seq<char>) -> Yaml;

/// Tells the `Yaml::Hash` variant from the others.
#[verifier::external_body]
pub fn is_hash(y: &Yaml) -> (b: bool)
    ensures
        b == yaml_is_hash(*y),
{
    matches!(y, Yaml::Hash(_))
}

/// `Yaml::Hash(LinkedHashMap::new())`: a hash with no entries.
#[verifier::external_body]
pub fn yaml_empty_hash() -> (y: Yaml)
    ensures
        yaml_is_hash(y),
        yaml_hash_len(y) == 0,
{
    Yaml::Hash(yaml_rust::yaml::Hash::new())
}

/// `LinkedHashMap::insert` of `Yaml::String(key)` with `Yaml::String(value)` into the
/// hash `y`; the value stays a hash.
#[verifier::external_body]
pub fn yaml_insert_str(y: &mut Yaml, key: &str, value: &str)
    requires
        yaml_is_hash(*old(y)),
    ensures
        *final(y) == yaml_with_entry(*old(y), key@, value@),
        yaml_is_hash(*final(y)),
{
    if let Yaml::Hash(h) = y {
        h.insert(Yaml::String(key.to_string()), Yaml::String(value.to_string()));
    }
}

/// The YAML hash `y` after `LinkedHashMap::insert` of the string key `key` with the
/// array of the strings `values`: a function of its arguments alone.
pub uninterp spec fn yaml_with_list(y: Yaml, key: Seq<char>, values: Seq<Seq<char>>) -> Yaml;

/// The text that `YamlEmitter::dump` writes for `y`: a function of `y` alone.
pub uninterp spec fn yaml_emitted(y: Yaml) -> Seq<char>;

/// `LinkedHashMap::insert` of `Yaml::String(key)` with the `Yaml::Array` of the
/// `Yaml::String`s of `values` into the hash `y`; the value stays a hash.
#[verifier::external_body]
pub fn yaml_insert_list(y: &mut Yaml, key: &str, values: &Vec<String>)
    requires
        yaml_is_hash(*old(y)),
    ensures
        *final(y) == yaml_with_list(*old(y), key@, values@.map_values(|v: String| v@)),
        yaml_is_hash(*final(y)),
{
    if let Yaml::Hash(h) = y {
        let list = values.iter().map(|t| Yaml::String(t.clone())).collect();
        h.insert(Yaml::String(key.to_string()), Yaml::Array(list));
    }
}

/// `YamlEmitter::dump` of `y` into a `String`. Writing to a `String` does not fail, so
/// the emitter's error never comes.
#[verifier::external_body]
pub fn yaml_emit(y: &Yaml) -> (r: String)
    ensures
        r@ == yaml_emitted(*y),
{
    let mut out = String::new();
    let _ = YamlEmitter::new(&mut out).dump(y);
    out
}

} // verus!
