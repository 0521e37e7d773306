use vstd::prelude::*;
use crate::error::ParseError;
use crate::filetype::FileType;
use crate::value::{wf_tree, Node, Tree};
use crate::yaml::{convert, converted_as, yaml_to_json, YamlNode};

verus! {

#[verifier::external_type_specification]
#[verifier::external_body]
pub struct ExJsonValue(serde_json::Value);

#[verifier::external_type_specification]
#[verifier::external_body]
pub struct ExYamlValue(yaml_rust::Yaml);

/// The value that a JSON text denotes; `None` where serde_json refuses the
/// text: it is not one JSON value, it nests deeper than 128 levels, or it
/// holds a number outside the range of a float.
pub uninterp spec fn json_document(s: Seq<char>) -> Option<Tree>;

/// The documents of a YAML stream; `None` where the text does not scan.
pub uninterp spec fn yaml_documents(s: Seq<char>) -> Option<Seq<YamlNode>>;

/// Relies on serde_json's `Value`: moves each variant into the library's
/// value, a number as the text serde_json prints for it.
#[verifier::external_body]
fn value_of_json(v: serde_json::Value) -> Node {
    match v {
        serde_json::Value::Null => Node::Null,
        serde_json::Value::Bool(b) => Node::Bool(b),
        serde_json::Value::Number(n) => Node::Number(n.to_string()),
        serde_json::Value::String(s) => Node::Str(s),
        serde_json::Value::Array(a) => Node::Array(a.into_iter().map(value_of_json).collect()),
        serde_json::Value::Object(m) => Node::Object(
            m.into_iter().map(|(k, x)| (k, value_of_json(x))).collect(),
        ),
    }
}

/// Relies on serde_json::from_str: whether a text is accepted, and the value
/// it gives, depend on the text alone; an object is a `serde_json::Map`, which
/// holds each key once.
#[verifier::external_body]
fn parse_json(text: &str) -> (r: Result<Node, serde_json::Error>)
    ensures
        r is Ok <==> json_document(text@) is Some,
        r matches Ok(v) ==> json_document(text@) == Some(v@),
        r matches Ok(v) ==> wf_tree(v@),
{
    serde_json::from_str::<serde_json::Value>(text).map(value_of_json)
}

/// Relies on yaml_rust's `Yaml`: moves each variant into the library's node,
/// the entries of a mapping in the map's order.
#[verifier::external_body]
fn node_of_yaml(y: yaml_rust::Yaml) -> YamlNode {
    match y {
        yaml_rust::Yaml::Real(s) => YamlNode::Real(s),
        yaml_rust::Yaml::Integer(i) => YamlNode::Integer(i),
        yaml_rust::Yaml::String(s) => YamlNode::String(s),
        yaml_rust::Yaml::Boolean(b) => YamlNode::Boolean(b),
        yaml_rust::Yaml::Array(a) => YamlNode::Array(a.into_iter().map(node_of_yaml).collect()),
        yaml_rust::Yaml::Hash(h) => YamlNode::Hash(
            h.into_iter().map(|(k, x)| (node_of_yaml(k), node_of_yaml(x))).collect(),
        ),
        yaml_rust::Yaml::Alias(n) => YamlNode::Alias(n),
        yaml_rust::Yaml::Null => YamlNode::Null,
        yaml_rust::Yaml::BadValue => YamlNode::BadValue,
    }
}

/// Relies on yaml_rust::YamlLoader::load_from_str: whether a text scans, and
/// the documents it holds, depend on the text alone.
#[verifier::external_body]
fn parse_yaml(text: &str) -> (r: Result<Vec<YamlNode>, yaml_rust::ScanError>)
    ensures
        r is Ok <==> yaml_documents(text@) is Some,
        r matches Ok(d) ==> yaml_documents(text@) == Some(d@),
{
    yaml_rust::YamlLoader::load_from_str(text).map(
        |docs| docs.into_iter().map(node_of_yaml).collect(),
    )
}

/// What loading `text` as JSON gives.
pub open spec fn json_loaded(r: Result<Node, ParseError>, text: Seq<char>) -> bool {
    match json_document(text) {
        Some(t) => r matches Ok(v) && v@ == t,
        None => r matches Err(ParseError::JsonError(_)),
    }
}

/// What loading `text` as YAML gives: the conversion of its first document,
/// null for a stream without documents.
pub open spec fn yaml_loaded(r: Result<Node, ParseError>, text: Seq<char>) -> bool {
    match yaml_documents(text) {
        Some(d) => if d.len() == 0 {
            r matches Ok(v) && v@ == Tree::Null
        } else {
            converted_as(r, convert(d[0]))
        },
        None => r matches Err(ParseError::ScanError(_)),
    }
}

/// Loads a JSON text.
pub fn read_from_json(text: &str) -> (r: Result<Node, ParseError>)
    ensures
        json_loaded(r, text@),
        r matches Ok(v) ==> wf_tree(v@),
{
    match parse_json(text) {
        Ok(v) => Ok(v),
        Err(e) => Err(ParseError::JsonError(e)),
    }
}

/// Loads the first document of a YAML text.
pub fn read_from_yaml(text: &str) -> (r: Result<Node, ParseError>)
    ensures
        yaml_loaded(r, text@),
        r matches Ok(v) ==> wf_tree(v@),
{
    match parse_yaml(text) {
        Ok(docs) => {
            if docs.len() == 0 {
                Ok(Node::Null)
            } else {
                yaml_to_json(&docs[0])
            }
        },
        Err(e) => Err(ParseError::ScanError(e)),
    }
}

/// Loads a document in the given format.
pub fn read_objects(text: &str, filetype: FileType) -> (r: Result<Node, ParseError>)
    ensures
        match filetype {
            FileType::Json => json_loaded(r, text@),
            FileType::Yaml => yaml_loaded(r, text@),
        },
        r matches Ok(v) ==> wf_tree(v@),
{
    match filetype {
        FileType::Json => read_from_json(text),
        FileType::Yaml => read_from_yaml(text),
    }
}

} // verus!
