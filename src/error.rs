use vstd::prelude::*;

verus! {

#[verifier::external_type_specification]
#[verifier::external_body]
pub struct ExIoError(std::io::Error);

#[verifier::external_type_specification]
#[verifier::external_body]
pub struct ExScanError(yaml_rust::ScanError);

#[verifier::external_type_specification]
#[verifier::external_body]
pub struct ExJsonError(serde_json::Error);

/// Why a document could not be loaded.
#[derive(Debug)]
pub enum ParseError {
    /// The source could not be read.
    IoError(std::io::Error),
    /// The YAML text is malformed.
    ScanError(yaml_rust::ScanError),
    /// The JSON text is malformed.
    JsonError(serde_json::Error),
    /// A YAML node has no counterpart in the value model.
    JsonConvertError(String),
}

impl ParseError {
    pub fn conversion_error(msg: String) -> (r: ParseError)
        ensures
            r matches ParseError::JsonConvertError(m) && m == msg,
    {
        ParseError::JsonConvertError(msg)
    }
}

impl From<std::io::Error> for ParseError {
    fn from(err: std::io::Error) -> (r: ParseError) {
        ParseError::IoError(err)
    }
}

impl vstd::std_specs::convert::FromSpecImpl<std::io::Error> for ParseError {
    open spec fn obeys_from_spec() -> bool {
        true
    }

    open spec fn from_spec(v: std::io::Error) -> ParseError {
        ParseError::IoError(v)
    }
}

impl From<yaml_rust::ScanError> for ParseError {
    fn from(err: yaml_rust::ScanError) -> (r: ParseError) {
        ParseError::ScanError(err)
    }
}

impl vstd::std_specs::convert::FromSpecImpl<yaml_rust::ScanError> for ParseError {
    open spec fn obeys_from_spec() -> bool {
        true
    }

    open spec fn from_spec(v: yaml_rust::ScanError) -> ParseError {
        ParseError::ScanError(v)
    }
}

impl From<serde_json::Error> for ParseError {
    fn from(err: serde_json::Error) -> (r: ParseError) {
        ParseError::JsonError(err)
    }
}

impl vstd::std_specs::convert::FromSpecImpl<serde_json::Error> for ParseError {
    open spec fn obeys_from_spec() -> bool {
        true
    }

    open spec fn from_spec(v: serde_json::Error) -> ParseError {
        ParseError::JsonError(v)
    }
}

} // verus!
