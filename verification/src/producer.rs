//! What every producer shares: the files it is handed, its configuration,
//! its errors and the path rules it applies.
use std::path::Path;

use vstd::prelude::*;

use crate::text::{chars_of, replace_all, replace_all_exec, string_of};

verus! {

/// A manifest or lock file handed to a producer: its path and, where it
/// could be read, its text.
pub struct SourceFile {
    pub path: String,
    pub content: Option<String>,
}

/// How a static producer is run.
pub struct SbomProducerConfiguration {
    pub use_debug: bool,
    pub base_path: String,
}

/// Why a producer could not produce dependencies.
#[derive(Debug)]
pub enum ProducerError {
    /// A file could not be read.
    Unreadable { path: String },
    /// A document could not be parsed.
    Parse { message: String },
    /// An external tool failed.
    Command { message: String },
}

/// What `Path::file_name` gives for `path`: its last component, where it is
/// a normal one.
pub uninterp spec fn path_file_name(path: Seq<char>) -> Option<Seq<char>>;

/// What `Path::parent` gives for `path`.
pub uninterp spec fn path_parent(path: Seq<char>) -> Option<Seq<char>>;

/// `Path::new(path).file_name()`, as a string.
#[verifier::external_body]
pub(crate) fn file_name_of(path: &str) -> (r: Option<String>)
    ensures
        match r {
            Some(n) => path_file_name(path@) == Some(n@),
            None => path_file_name(path@) is None,
        },
{
    Path::new(path).file_name().map(|n| n.to_string_lossy().into_owned())
}

/// `Path::new(path).parent()`, as a string.
#[verifier::external_body]
pub(crate) fn parent_of(path: &str) -> (r: Option<String>)
    ensures
        match r {
            Some(n) => path_parent(path@) == Some(n@),
            None => path_parent(path@) is None,
        },
{
    Path::new(path).parent().map(|p| p.to_string_lossy().into_owned())
}

/// The name of the directory that holds `path`.
pub open spec fn dir_name(path: Seq<char>) -> Option<Seq<char>> {
    match path_parent(path) {
        Some(p) => path_file_name(p),
        None => None,
    }
}

pub fn dir_name_of(path: &str) -> (r: Option<String>)
    ensures
        match r {
            Some(n) => dir_name(path@) == Some(n@),
            None => dir_name(path@) is None,
        },
{
    match parent_of(path) {
        Some(p) => file_name_of(p.as_str()),
        None => None,
    }
}

/// The scope that a file lends to the identifiers it produces: its path with
/// every `\` turned into `/`.
pub open spec fn file_salt(path: Seq<char>) -> Seq<char> {
    replace_all(path, seq!['\\'], seq!['/'])
}

pub fn file_salt_of(path: &str) -> (r: String)
    ensures
        r@ == file_salt(path@),
{
    let mut from: Vec<char> = Vec::new();
    from.push('\\');
    let mut to: Vec<char> = Vec::new();
    to.push('/');
    assert(from@ =~= seq!['\\']);
    assert(to@ =~= seq!['/']);
    string_of(&replace_all_exec(&chars_of(path), &from, &to))
}

} // verus!
