//! The run's configuration, and what the dynamic producers are told about
//! the project directory and the tools they ran.
use vstd::prelude::*;

use crate::model::Dependency;
use crate::producer::ProducerError;

verus! {

/// What to scan, where to write the result, and how.
pub struct Configuration {
    pub directory: String,
    pub output: String,
    pub use_debug: bool,
    pub dynamic: bool,
}

/// What is known of the directory to scan: the names of the entries found
/// in it, and the Python interpreter that answered, if any.
pub struct DirectoryProbe {
    pub entries: Vec<String>,
    pub python: Option<String>,
}

/// What an external tool printed, and whether it succeeded.
pub struct CommandOutput {
    pub success: bool,
    pub stdout: String,
    pub stderr: String,
}

/// The directory holds an entry named `name`.
pub open spec fn has_entry(probe: DirectoryProbe, name: Seq<char>) -> bool {
    probe.entries.deep_view().contains(name)
}

/// Whether the directory holds an entry named `name`.
pub fn probe_has(probe: &DirectoryProbe, name: &str) -> (r: bool)
    ensures
        r == has_entry(*probe, name@),
{
    let ghost ev = probe.entries.deep_view();
    let mut i: usize = 0;
    while i < probe.entries.len()
        invariant
            i <= probe.entries.len(),
            ev == probe.entries.deep_view(),
            forall|k: int| 0 <= k < i ==> ev[k] != name@,
        decreases probe.entries.len() - i,
    {
        if crate::text::str_eq(probe.entries[i].as_str(), name) {
            assert(ev[i as int] == name@);
            return true;
        }
        i = i + 1;
    }
    false
}

/// A producer that asks a build tool for the resolved dependencies of the
/// project, instead of reading its files.
pub trait DynamicProducer {
    /// Whether the tool applies to the directory.
    fn is_applicable(&self, probe: &DirectoryProbe) -> bool;

    /// The dependencies that the tool's output describes.
    fn detect_dependencies(&self, output: &CommandOutput) -> Result<Vec<Dependency>, ProducerError>;
}

} // verus!
