//! What the editor asks of the windowing side.

use vstd::prelude::*;

verus! {

/// Lets the user choose a file.
pub struct FilePicker;

/// A file dialog to open.
pub struct FileDialog {
    /// The directory that the dialog starts in, where the caller names one.
    pub directory: Option<String>,
    /// What to show while the user chooses.
    pub message: &'static str,
}

/// What to show while the user chooses a file.
pub open spec fn waiting_message() -> Seq<char> {
    "Waiting for a file to be chosen"@
}

impl FilePicker {
    /// The dialog that lets the user choose a file, starting in `start_dir`
    /// where one is given.
    pub fn new_state(start_dir: Option<String>) -> (dialog: FileDialog)
        ensures
            dialog.directory == start_dir,
            dialog.message@ == waiting_message(),
    {
        FileDialog { directory: start_dir, message: "Waiting for a file to be chosen" }
    }
}

} // verus!
