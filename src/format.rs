//! The decisions of the source-formatting command.

use vstd::prelude::*;

verus! {

/// The options of the formatting command.
#[derive(Debug)]
pub struct FormatArgs {
    /// Consider all eligible files.
    pub all: bool,
    /// Report files that are not formatted as expected, without modifying any.
    pub check: bool,
    /// Format even if uncommitted changes are detected.
    pub force: bool,
    /// The files and directories to consider.
    pub paths: Vec<String>,
}

impl FormatArgs {
    /// Nothing is to be formatted: neither all files nor any path was asked for.
    pub fn nothing_to_do(&self) -> (r: bool)
        ensures
            r == (!self.all && self.paths@.len() == 0),
    {
        !self.all && self.paths.len() == 0
    }

    /// Files may be rewritten without the user's leave, so uncommitted
    /// changes must be looked for first.
    pub fn needs_clean_tree_check(&self) -> (r: bool)
        ensures
            r == (!self.force && !self.check),
    {
        !self.force && !self.check
    }

    /// Whether to go on after asking about uncommitted changes: only an
    /// answer of exactly `y` followed by a newline agrees.
    pub fn confirmed(response: &Vec<char>) -> (r: bool)
        ensures
            r == (response@ == seq!['y', '\n']),
    {
        let r = response.len() == 2 && response[0] == 'y' && response[1] == '\n';
        proof {
            if response@.len() == 2 && response@[0] == 'y' && response@[1] == '\n' {
                assert(response@ =~= seq!['y', '\n']);
            }
        }
        r
    }
}

} // verus!
