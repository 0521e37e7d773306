//! Loads a JSON or YAML document into a value tree, extracts a sub-value by a
//! dot-delimited path and flattens it into `path:scalar` lines.
mod args;
mod decimal;
mod error;
mod filetype;
mod flatten;
mod load;
mod path;
mod value;
mod yaml;

pub use args::Args;
pub use decimal::{decimal_text, digit_char, int_text, render_i64, render_usize};
pub use error::ParseError;
pub use filetype::{contains_dot, get_extension, resolve_filetype, FileType};
pub use flatten::{flatten, output, render_line, scalar_string, Record};
pub use load::{read_from_json, read_from_yaml, read_objects};
pub use path::{
    child_of, extract, extract_lines, lemma_decimal_index, lemma_flatten_round_trip,
    lemma_lines_per_leaf, lemma_paths_distinct, lemma_unresolved_path, parse_index, split_path,
};
pub use value::{Node, Tree};
pub use yaml::{
    handle_array, handle_hash, insert_entry, lemma_convert_wf, lemma_non_scalar_key_fails,
    lemma_plain_converts, lemma_real_keeps_text, yaml_to_json, yaml_to_key_string, YamlNode,
};
