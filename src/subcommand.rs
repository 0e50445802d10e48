//! The packaging command's checks before anything is written.
use vstd::prelude::*;
use vstd::string::*;

verus! {

/// Whether `path` lies under `base`, whole path components at a time.
pub uninterp spec fn path_starts_with(path: Seq<char>, base: Seq<char>) -> bool;

/// Relies on camino's `Utf8Path::starts_with`: whether `base` is a prefix of
/// `path` by whole components, which depends on the two strings alone.
#[verifier::external_body]
fn starts_with(path: &str, base: &str) -> (r: bool)
    ensures
        r == path_starts_with(path@, base@),
{
    camino::Utf8Path::new(path).starts_with(base)
}

/// The packaging command: the directory to package and the file to write.
pub struct Package {
    pub root: String,
    pub output: String,
}

/// Why the packaging command refuses to start.
#[derive(Clone, Debug, PartialEq, Eq)]
pub enum RunError {
    /// The output would be written inside the directory being packaged.
    OutputInRoot { output: String, root: String },
    /// The output is an existing directory.
    OutputIsDir { output: String },
    /// The directory holds no metadata file.
    MetadataMissing { root: String },
}

impl Package {
    /// Decides, from what is known of the output and the root, whether
    /// packaging may go on: an output inside the root is refused first, then
    /// an output that is a directory, then a root without metadata.
    pub fn preflight_with(&self, in_root: bool, output_is_dir: bool, metadata_exists: bool) -> (r:
        Result<(), RunError>)
        ensures
            in_root ==> (r matches Err(RunError::OutputInRoot { output, root }) && output@
                == self.output@ && root@ == self.root@),
            !in_root && output_is_dir ==> (r matches Err(RunError::OutputIsDir { output })
                && output@ == self.output@),
            !in_root && !output_is_dir && !metadata_exists ==> (r matches Err(
                RunError::MetadataMissing { root },
            ) && root@ == self.root@),
            !in_root && !output_is_dir && metadata_exists ==> r is Ok,
    {
        if in_root {
            return Err(
                RunError::OutputInRoot {
                    output: String::from_str(self.output.as_str()),
                    root: String::from_str(self.root.as_str()),
                },
            );
        }
        if output_is_dir {
            return Err(RunError::OutputIsDir { output: String::from_str(self.output.as_str()) });
        }
        if !metadata_exists {
            return Err(RunError::MetadataMissing { root: String::from_str(self.root.as_str()) });
        }
        Ok(())
    }

    /// The checks before packaging, given whether the output is a directory
    /// and whether the root holds metadata.
    pub fn preflight(&self, output_is_dir: bool, metadata_exists: bool) -> (r: Result<(), RunError>)
        ensures
            path_starts_with(self.output@, self.root@) ==> (r matches Err(
                RunError::OutputInRoot { output, root },
            ) && output@ == self.output@ && root@ == self.root@),
            !path_starts_with(self.output@, self.root@) && output_is_dir ==> (r matches Err(
                RunError::OutputIsDir { output },
            ) && output@ == self.output@),
            !path_starts_with(self.output@, self.root@) && !output_is_dir && !metadata_exists
                ==> (r matches Err(RunError::MetadataMissing { root }) && root@ == self.root@),
            !path_starts_with(self.output@, self.root@) && !output_is_dir && metadata_exists ==> r is Ok,
    {
        let in_root = starts_with(self.output.as_str(), self.root.as_str());
        self.preflight_with(in_root, output_is_dir, metadata_exists)
    }
}

} // verus!
