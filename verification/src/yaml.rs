//! The YAML document model, and the trusted bridge to the yaml-rust parser
//! and emitter.
//!
//! Configuration files and result files are YAML.  Parsing text into a
//! document tree and writing a tree back out are yaml-rust's work, behind
//! the two trusted wrappers at the bottom; everything that reads or builds a
//! document works on the library's own `YamlData` tree and is verified.

use vstd::prelude::*;

use crate::strkey::str_eq;

verus! {

/// A YAML value, as the library models it.  Mirrors what the parser can
/// produce: floats are kept as their raw text, hashes as ordered key/value
/// pairs, and a nonexistent or ill-typed node reads as `BadValue`.
#[derive(Debug)]
pub enum YamlData {
    /// a float scalar, kept as the raw text of the number
    Real(String),
    /// an integer scalar
    Integer(i64),
    /// a string scalar
    Str(String),
    /// a boolean scalar
    Boolean(bool),
    /// a sequence of values
    Array(Vec<YamlData>),
    /// a mapping, as key/value pairs in document order
    Hash(Vec<(YamlData, YamlData)>),
    /// an alias node; not interpreted
    Alias(usize),
    /// the null scalar
    Null,
    /// a missing or ill-typed node
    BadValue,
}

impl YamlData {
    /// The string content, for a string scalar.
    pub open spec fn spec_as_str(self) -> Option<Seq<char>> {
        match self {
            YamlData::Str(s) => Some(s@),
            _ => None,
        }
    }

    /// The integer content, for an integer scalar.
    pub open spec fn spec_as_i64(self) -> Option<i64> {
        match self {
            YamlData::Integer(i) => Some(i),
            _ => None,
        }
    }

    /// The string content, for a string scalar.
    pub fn as_str(&self) -> (r: Option<&String>)
        ensures
            match r {
                Some(s) => self.spec_as_str() == Some(s@),
                None => self.spec_as_str() is None,
            },
    {
        match self {
            YamlData::Str(s) => Some(s),
            _ => None,
        }
    }

    /// The integer content, for an integer scalar.
    pub fn as_i64(&self) -> (r: Option<i64>)
        ensures
            r == self.spec_as_i64(),
    {
        match self {
            YamlData::Integer(i) => Some(*i),
            _ => None,
        }
    }

    /// The elements, for a sequence.
    pub fn as_vec(&self) -> (r: Option<&Vec<YamlData>>)
        ensures
            match r {
                Some(v) => self matches YamlData::Array(a) && v@ == a@,
                None => !(self matches YamlData::Array(_)),
            },
    {
        match self {
            YamlData::Array(v) => Some(v),
            _ => None,
        }
    }

    /// The key/value pairs, for a mapping.
    pub fn as_hash(&self) -> (r: Option<&Vec<(YamlData, YamlData)>>)
        ensures
            match r {
                Some(v) => self matches YamlData::Hash(h) && v@ == h@,
                None => !(self matches YamlData::Hash(_)),
            },
    {
        match self {
            YamlData::Hash(v) => Some(v),
            _ => None,
        }
    }
}

/// The value stored in a mapping under a string key; the first match counts.
pub open spec fn spec_hash_lookup(pairs: Seq<(YamlData, YamlData)>, key: Seq<char>) -> Option<
    YamlData,
>
    decreases pairs.len(),
{
    if pairs.len() == 0 {
        None
    } else if pairs[0].0.spec_as_str() == Some(key) {
        Some(pairs[0].1)
    } else {
        spec_hash_lookup(pairs.skip(1), key)
    }
}

/// What indexing a document with a string key yields: the stored value for
/// a mapping that holds the key, `None` otherwise.
pub open spec fn spec_index(doc: YamlData, key: Seq<char>) -> Option<YamlData> {
    match doc {
        YamlData::Hash(pairs) => spec_hash_lookup(pairs@, key),
        _ => None,
    }
}

/// Look a string key up in a document, as indexing a parsed node does.
pub fn yaml_index<'a>(doc: &'a YamlData, key: &str) -> (r: Option<&'a YamlData>)
    ensures
        match r {
            Some(v) => spec_index(*doc, key@) == Some(*v),
            None => spec_index(*doc, key@) is None,
        },
{
    let pairs = match doc.as_hash() {
        Some(pairs) => pairs,
        None => {
            return None;
        },
    };
    let n = pairs.len();
    let mut i: usize = 0;
    while i < n
        invariant
            n == pairs@.len(),
            i <= n,
            spec_index(*doc, key@) == spec_hash_lookup(pairs@, key@),
            forall|j: int|
                0 <= j < i ==> (#[trigger] pairs@[j]).0.spec_as_str() != Some(key@),
        decreases n - i,
    {
        let k: &YamlData = &pairs[i].0;
        match k.as_str() {
            Some(s) => {
                if str_eq(s.as_str(), key) {
                    proof {
                        lemma_hash_lookup_at(pairs@, key@, i as int);
                    }
                    return Some(&pairs[i].1);
                }
            },
            None => {
            },
        }
        i += 1;
    }
    proof {
        lemma_hash_lookup_absent(pairs@, key@);
    }
    None
}

proof fn lemma_hash_lookup_at(pairs: Seq<(YamlData, YamlData)>, key: Seq<char>, i: int)
    requires
        0 <= i < pairs.len(),
        pairs[i].0.spec_as_str() == Some(key),
        forall|j: int| 0 <= j < i ==> (#[trigger] pairs[j]).0.spec_as_str() != Some(key),
    ensures
        spec_hash_lookup(pairs, key) == Some(pairs[i].1),
    decreases i,
{
    if i > 0 {
        assert(forall|j: int|
            0 <= j < pairs.skip(1).len() ==> #[trigger] pairs.skip(1)[j] == pairs[j + 1]);
        lemma_hash_lookup_at(pairs.skip(1), key, i - 1);
    }
}

proof fn lemma_hash_lookup_absent(pairs: Seq<(YamlData, YamlData)>, key: Seq<char>)
    requires
        forall|j: int|
            0 <= j < pairs.len() ==> (#[trigger] pairs[j]).0.spec_as_str() != Some(key),
    ensures
        spec_hash_lookup(pairs, key) is None,
    decreases pairs.len(),
{
    if pairs.len() > 0 {
        assert(forall|j: int|
            0 <= j < pairs.skip(1).len() ==> #[trigger] pairs.skip(1)[j] == pairs[j + 1]);
        lemma_hash_lookup_absent(pairs.skip(1), key);
    }
}

/// What the YAML parser yields for a piece of text: the parsed documents,
/// in the library's model, or nothing when the text is not valid YAML.  The
/// parse is a function of the text alone; this name stands for its result.
pub uninterp spec fn yaml_docs_of(text: Seq<char>) -> Option<Seq<YamlData>>;

/// What the YAML emitter writes for a document, or nothing when it reports
/// an error.  The emission is a function of the document alone; this name
/// stands for its result.
pub uninterp spec fn yaml_text_of(doc: YamlData) -> Option<Seq<char>>;

/// The declaration of yaml-rust's document type, so that the trusted
/// converters below may speak of it.
#[verifier::external_type_specification]
#[verifier::external_body]
pub struct ExYaml(yaml_rust::Yaml);

/// Relies on yaml_rust::Yaml: each variant of a parsed document is carried
/// over into the library's own model, field by field; array elements and
/// hash pairs are carried over in order.
#[verifier::external_body]
fn yaml_to_data(y: yaml_rust::Yaml) -> YamlData {
    match y {
        yaml_rust::Yaml::Real(s) => YamlData::Real(s),
        yaml_rust::Yaml::Integer(i) => YamlData::Integer(i),
        yaml_rust::Yaml::String(s) => YamlData::Str(s),
        yaml_rust::Yaml::Boolean(b) => YamlData::Boolean(b),
        yaml_rust::Yaml::Array(v) => YamlData::Array(v.into_iter().map(yaml_to_data).collect()),
        yaml_rust::Yaml::Hash(h) => YamlData::Hash(
            h.into_iter().map(|(k, v)| (yaml_to_data(k), yaml_to_data(v))).collect(),
        ),
        yaml_rust::Yaml::Alias(a) => YamlData::Alias(a),
        yaml_rust::Yaml::Null => YamlData::Null,
        yaml_rust::Yaml::BadValue => YamlData::BadValue,
    }
}

/// Relies on yaml_rust::Yaml: the reverse of `yaml_to_data`, carrying the
/// library's model back into yaml-rust's, variant by variant and in order.
#[verifier::external_body]
fn data_to_yaml(d: YamlData) -> yaml_rust::Yaml {
    match d {
        YamlData::Real(s) => yaml_rust::Yaml::Real(s),
        YamlData::Integer(i) => yaml_rust::Yaml::Integer(i),
        YamlData::Str(s) => yaml_rust::Yaml::String(s),
        YamlData::Boolean(b) => yaml_rust::Yaml::Boolean(b),
        YamlData::Array(v) => yaml_rust::Yaml::Array(v.into_iter().map(data_to_yaml).collect()),
        YamlData::Hash(h) => yaml_rust::Yaml::Hash(
            h.into_iter().map(|(k, v)| (data_to_yaml(k), data_to_yaml(v))).collect(),
        ),
        YamlData::Alias(a) => yaml_rust::Yaml::Alias(a),
        YamlData::Null => yaml_rust::Yaml::Null,
        YamlData::BadValue => yaml_rust::Yaml::BadValue,
    }
}

/// Relies on yaml_rust::YamlLoader::load_from_str: the text is parsed as a
/// stream of YAML documents, each carried into the library's model; `None`
/// when the text is not valid YAML.  The parse depends on the text alone,
/// so the result bears the name `yaml_docs_of`; callers validate whatever
/// comes back.
#[verifier::external_body]
pub(crate) fn load_yaml(text: &str) -> (r: Option<Vec<YamlData>>)
    ensures
        match r {
            Some(docs) => yaml_docs_of(text@) == Some(docs@),
            None => yaml_docs_of(text@) is None,
        },
{
    match yaml_rust::YamlLoader::load_from_str(text) {
        Ok(docs) => Some(docs.into_iter().map(yaml_to_data).collect()),
        Err(_) => None,
    }
}

/// Relies on yaml_rust::YamlEmitter::dump: the document, carried back into
/// yaml-rust's model, is written out as YAML text; `None` when the emitter
/// reports an error.  The emission depends on the document alone, so the
/// result bears the name `yaml_text_of`; the reading side validates what it
/// parses.
#[verifier::external_body]
pub(crate) fn emit_yaml(doc: YamlData) -> (r: Option<String>)
    ensures
        match r {
            Some(s) => yaml_text_of(doc) == Some(s@),
            None => yaml_text_of(doc) is None,
        },
{
    let y = data_to_yaml(doc);
    let mut out = String::new();
    match yaml_rust::YamlEmitter::new(&mut out).dump(&y) {
        Ok(()) => Some(out),
        Err(_) => None,
    }
}

} // verus!
