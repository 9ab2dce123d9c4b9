//! What a run is asked to do.

use vstd::prelude::*;

verus! {

/// The settings of a run.
#[derive(Clone, Debug, PartialEq, Eq)]
pub struct Options {
    /// Report in more detail.
    pub verbose: bool,
    /// Archive the folders without subfolders below the ones named, in
    /// place of the ones named.
    pub recursive: bool,
    /// Remove a folder once its archive is made.
    pub delete: bool,
    /// The extension of the archives.
    pub extension: String,
    /// The folders named.
    pub folders: Vec<String>,
}

impl Default for Options {
    /// The settings of a run that was told nothing: no folders, nothing
    /// switched on, archives named `.cbz`.
    fn default() -> (options: Options)
        ensures
            !options.verbose,
            !options.recursive,
            !options.delete,
            options.extension@ == "cbz"@,
            options.folders@.len() == 0,
    {
        Options {
            verbose: false,
            recursive: false,
            delete: false,
            extension: "cbz".to_owned(),
            folders: Vec::new(),
        }
    }
}

} // verus!
