//! Settings of the note-taking tool: which editor command opens a note.

use vstd::prelude::*;

verus! {

#[derive(Debug)]
pub struct Config {
    pub editor_command: String,
}

impl Default for Config {
    /// The configuration used when none is stored: `nvim` as the editor.
    fn default() -> (r: Self)
        ensures
            r.editor_command@ == "nvim"@,
    {
        Config { editor_command: String::from_str("nvim") }
    }
}

} // verus!
