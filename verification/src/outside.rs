//! The calls this library makes into code it does not verify: `std`'s
//! string collection, the `regex` crate's decimal-digit class, `chrono`'s
//! date parser, `serde_yaml`'s parser, mapping and writer, and `std::path`.
//! Each item states what the called code is trusted to do.
use vstd::prelude::*;
use chrono::Datelike;
use crate::yaml::{YamlEntry, FieldValue, set_entry};

verus! {

/// `String::from_iter` over characters: the string holds exactly the
/// characters given, in order.
#[verifier::external_body]
pub(crate) fn chars_to_string(v: &Vec<char>) -> (r: String)
    ensures
        r@ == v@,
{
    String::from_iter(v.iter())
}

/// Whether `c` belongs to the class that `\d` matches in a Unicode regular
/// expression of the `regex` crate (the general category `Nd`).
pub uninterp spec fn regex_decimal_digit(c: char) -> bool;

/// Asks the `regex` crate whether the one-character text `c` is matched by
/// `\A\d\z`. Trusted: the answer is `regex_decimal_digit(c)`, and the ASCII
/// digits `0` to `9` are in the class (the crate documents `\d` as `\p{Nd}`).
#[verifier::external_body]
pub(crate) fn is_regex_decimal_digit(c: char) -> (r: bool)
    ensures
        r == regex_decimal_digit(c),
        ('0' <= c && c <= '9') ==> r,
{
    let mut buf = [0u8; 4];
    match regex::Regex::new(r"\A\d\z") {
        Ok(re) => re.is_match(c.encode_utf8(&mut buf)),
        Err(_) => false,
    }
}

/// The date that `chrono::NaiveDate::parse_from_str(s, "%Y-%m-%d")` reads
/// from `s`, as year, month and day, or `None` where it fails.
pub uninterp spec fn chrono_ymd(s: Seq<char>) -> Option<(i32, u32, u32)>;

/// Calls `chrono::NaiveDate::parse_from_str(s, "%Y-%m-%d")` and takes year,
/// month and day from the date it returns. Trusted: the result is
/// `chrono_ymd(s@)`; nothing more is stated of chrono's parser.
#[verifier::external_body]
pub(crate) fn parse_ymd(s: &str) -> (r: Option<(i32, u32, u32)>)
    ensures
        r == chrono_ymd(s@),
{
    match chrono::NaiveDate::parse_from_str(s, "%Y-%m-%d") {
        Ok(d) => Some((d.year(), d.month(), d.day())),
        Err(_) => None,
    }
}

/// `serde_yaml::Value`, carried through opaque.
#[verifier::external_type_specification]
#[verifier::external_body]
pub struct ExYamlValue(serde_yaml::Value);

/// `serde_yaml::Mapping`, carried through opaque; what it holds is named by
/// `mapping_entries`.
#[verifier::external_type_specification]
#[verifier::external_body]
pub struct ExYamlMapping(serde_yaml::Mapping);

/// What a YAML text parses to: a mapping, another value, or nothing where
/// it is not valid YAML.
pub enum ParsedYaml {
    Mapping(serde_yaml::Mapping),
    Other(serde_yaml::Value),
    Invalid,
}

/// The entries of a `serde_yaml::Mapping` in the order it keeps them (the
/// order of insertion): each key as `YamlKey::Text` of its text where it is
/// a `Value::String`, else as `YamlKey::Other` of the key itself; each value
/// as a `YamlItem`: a `Value::String` as `Text` of its text, an integer
/// `Value::Number` as `Count` of that integer, a `Value::Sequence` whose
/// elements are all `Value::String` as `TextList` of their texts, and any
/// other value as `Other` of the value itself.
pub uninterp spec fn mapping_entries(m: serde_yaml::Mapping) -> Seq<YamlEntry>;

/// What `serde_yaml::from_str::<serde_yaml::Value>` makes of a text.
pub uninterp spec fn yaml_parse(text: Seq<char>) -> ParsedYaml;

/// The text `serde_yaml::to_string` writes for a mapping, or `None` where it
/// fails.
pub uninterp spec fn mapping_yaml(m: serde_yaml::Mapping) -> Option<Seq<char>>;

/// The text `serde_yaml::to_string` writes for a value, or `None` where it
/// fails.
pub uninterp spec fn value_yaml(v: serde_yaml::Value) -> Option<Seq<char>>;

/// Calls `serde_yaml::from_str::<serde_yaml::Value>` and tells a mapping
/// from another value. Trusted: the result is `yaml_parse(text@)`, a
/// function of the text alone; nothing is stated of YAML's grammar.
#[verifier::external_body]
pub(crate) fn parse_yaml(text: &str) -> (r: ParsedYaml)
    ensures
        r == yaml_parse(text@),
{
    match serde_yaml::from_str::<serde_yaml::Value>(text) {
        Ok(serde_yaml::Value::Mapping(m)) => ParsedYaml::Mapping(m),
        Ok(v) => ParsedYaml::Other(v),
        Err(_) => ParsedYaml::Invalid,
    }
}

/// `serde_yaml::Mapping::new`. Trusted: the mapping is empty.
#[verifier::external_body]
pub(crate) fn new_mapping() -> (r: serde_yaml::Mapping)
    ensures
        mapping_entries(r).len() == 0,
{
    serde_yaml::Mapping::new()
}

/// `serde_yaml::Mapping::insert` with a string key. Trusted: as the
/// mapping's `IndexMap` documents, an entry with an equal key gets the new
/// value in its place; otherwise the entry is added at the end; the other
/// entries stay as they were.
#[verifier::external_body]
pub(crate) fn mapping_insert(m: &mut serde_yaml::Mapping, key: &str, value: &FieldValue)
    ensures
        mapping_entries(*final(m)) == set_entry(mapping_entries(*old(m)), key@, value.item()),
{
    let v = match value {
        FieldValue::Text(t) => serde_yaml::Value::String(t.clone()),
        FieldValue::Count(n) => serde_yaml::Value::Number(serde_yaml::Number::from(*n)),
        FieldValue::TextList(ts) => serde_yaml::Value::Sequence(
            ts.iter().map(|t| serde_yaml::Value::String(t.clone())).collect(),
        ),
    };
    m.insert(serde_yaml::Value::String(key.to_string()), v);
}

/// `serde_yaml::to_string` on a mapping. Trusted: the text written is
/// `mapping_yaml(*m)`; where the writer fails, its message is handed back.
#[verifier::external_body]
pub(crate) fn mapping_to_yaml(m: &serde_yaml::Mapping) -> (r: Result<String, String>)
    ensures
        match r {
            Ok(s) => mapping_yaml(*m) == Some(s@),
            Err(_) => mapping_yaml(*m) is None,
        },
{
    serde_yaml::to_string(m).map_err(|e| e.to_string())
}

/// `serde_yaml::to_string` on a value. Trusted: the text written is
/// `value_yaml(*v)`; where the writer fails, its message is handed back.
#[verifier::external_body]
pub(crate) fn value_to_yaml(v: &serde_yaml::Value) -> (r: Result<String, String>)
    ensures
        match r {
            Ok(s) => value_yaml(*v) == Some(s@),
            Err(_) => value_yaml(*v) is None,
        },
{
    serde_yaml::to_string(v).map_err(|e| e.to_string())
}

/// What `std::path::Path::new(a).join(b)` gives, as text. `std::path`
/// follows the path rules of the platform the crate is built for (on
/// Windows `\\` and `/` both separate, and drive and network prefixes
/// count); for one build the result is a function of `a` and `b`.
pub uninterp spec fn std_path_join(a: Seq<char>, b: Seq<char>) -> Seq<char>;

/// What `std::path::Path::new(p).parent()` gives, as text, under the path
/// rules of the platform the crate is built for.
pub uninterp spec fn std_path_parent(p: Seq<char>) -> Option<Seq<char>>;

/// What `std::path::Path::new(p).is_absolute()` gives, under the path rules
/// of the platform the crate is built for.
pub uninterp spec fn std_path_is_absolute(p: Seq<char>) -> bool;

/// Calls `Path::join`. Trusted: the result is `std_path_join(a@, b@)` (the
/// joined path of two texts is text, so the conversion back loses nothing).
#[verifier::external_body]
pub(crate) fn path_join(a: &str, b: &str) -> (r: String)
    ensures
        r@ == std_path_join(a@, b@),
{
    std::path::Path::new(a).join(b).to_string_lossy().into_owned()
}

/// Calls `Path::parent`. Trusted: the result is `std_path_parent(p@)`.
#[verifier::external_body]
pub(crate) fn path_parent(p: &str) -> (r: Option<String>)
    ensures
        match std_path_parent(p@) {
            Some(q) => r matches Some(x) && x@ == q,
            None => r is None,
        },
{
    std::path::Path::new(p).parent().map(|q| q.to_string_lossy().into_owned())
}

/// Calls `Path::is_absolute`. Trusted: the result is
/// `std_path_is_absolute(p@)`.
#[verifier::external_body]
pub(crate) fn path_is_absolute(p: &str) -> (r: bool)
    ensures
        r == std_path_is_absolute(p@),
{
    std::path::Path::new(p).is_absolute()
}

} // verus!
