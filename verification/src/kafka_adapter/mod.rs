pub mod filtered;
pub mod jq;

use vstd::prelude::*;
use crate::text::{contains_text, has_substring, lowercase, lowercase_text};

pub use filtered::{FilteredLoad, LoadPartition, LoadStep, Turn, DEFAULT_LOAD_LIMIT};
pub use jq::{eval_jq_bool, json_path_get, parse_path, PathStep};

verus! {

/// What `apply_filters` takes: the partition (`all` or a number), the first offset for one
/// selected partition, and the direction (`oldest` or `newest`).
#[derive(Debug)]
pub struct ApplyFiltersArgs {
    pub partition: Option<String>,
    pub start_offset: Option<i64>,
    pub start_from: Option<String>,
}

/// How the message filter of a filtered load is read.
#[derive(Debug, Clone, Copy)]
pub enum FilterMode {
    /// As a text that the message has to contain.
    Plain,
    /// As a small path expression over the message as JSON.
    Jq,
}

impl Default for FilterMode {
    fn default() -> (m: Self)
        ensures
            m is Plain,
    {
        FilterMode::Plain
    }
}

/// What `start_filtered_load` takes.
#[derive(Debug)]
pub struct StartFilteredLoadArgs {
    pub limit: Option<usize>,
    pub key_filter: Option<String>,
    pub message_filter: Option<String>,
    pub message_filter_mode: Option<FilterMode>,
}

/// A filter lets a text pass: there is no filter, or it is empty, or the text contains it,
/// both taken in lower case.
pub open spec fn filter_passes(text: Seq<char>, filter: Option<String>) -> bool {
    match filter {
        Some(f) => f@.len() == 0 || has_substring(lowercase_text(text), lowercase_text(f@)),
        None => true,
    }
}

/// Whether a filter lets a text pass.
pub fn passes(text: &str, filter: &Option<String>) -> (r: bool)
    ensures
        r == filter_passes(text@, *filter),
{
    match filter {
        Some(f) => {
            if f.as_str().unicode_len() == 0 {
                true
            } else {
                let hay = lowercase(text);
                let needle = lowercase(f.as_str());
                contains_text(hay.as_str(), needle.as_str())
            }
        },
        None => true,
    }
}

/// Whether key and message pass their filters, each a text to be contained without regard
/// to case.
pub fn matches_filters(
    key: &str,
    msg: &str,
    key_filter: &Option<String>,
    msg_filter: &Option<String>,
) -> (ok: bool)
    ensures
        ok == (filter_passes(key@, *key_filter) && filter_passes(msg@, *msg_filter)),
{
    let k = passes(key, key_filter);
    let m = passes(msg, msg_filter);
    k && m
}

} // verus!
