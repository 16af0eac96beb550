//! The text of a configuration file, in which comments may stand.

use std::io::Read;
use vstd::prelude::*;

use crate::json::{json_pretty, read_pretty};

verus! {

/// A text with its comments blanked out; nothing where a comment or a string in it does not
/// end, or a comment begins with a single slash.
pub uninterp spec fn without_comments(text: Seq<char>) -> Option<Seq<char>>;

/// `json_comments::StripComments::new` and its `read_to_string`: the text with its comments
/// blanked out, or nothing where it is an error; a function of the text alone.
#[verifier::external_body]
fn strip(text: &str) -> (r: Option<String>)
    ensures
        match r {
            Some(t) => without_comments(text@) == Some(t@),
            None => without_comments(text@) is None,
        },
{
    let mut out = String::new();
    json_comments::StripComments::new(text.as_bytes()).read_to_string(&mut out).ok()?;
    Some(out)
}

/// The JSON that a configuration file holds; nothing where a comment or a string in it is
/// malformed.
pub fn config_text(file: &str) -> (r: Option<String>)
    ensures
        match r {
            Some(t) => without_comments(file@) == Some(t@),
            None => without_comments(file@) is None,
        },
{
    strip(file)
}

/// Why a configuration file cannot be shown.
#[derive(Debug, Clone, Copy, PartialEq, Eq, Structural)]
pub enum ConfigError {
    /// A comment in it is malformed.
    Comments,
    /// It is no JSON.
    NotJson,
}

/// The configuration that a file holds, as JSON without comments.
pub fn config_value(file: &str) -> (r: Result<String, ConfigError>)
    ensures
        match without_comments(file@) {
            None => r == Err::<String, ConfigError>(ConfigError::Comments),
            Some(t) => match json_pretty(t) {
                None => r == Err::<String, ConfigError>(ConfigError::NotJson),
                Some(v) => r matches Ok(s) && s@ == v,
            },
        },
{
    match config_text(file) {
        None => Err(ConfigError::Comments),
        Some(t) => match read_pretty(&t) {
            None => Err(ConfigError::NotJson),
            Some(v) => Ok(v),
        },
    }
}

} // verus!
