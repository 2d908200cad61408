//! The data of the template subcommand: what the user asked for, and where
//! the template store lives.  Reading, copying and prompting stay with the
//! caller.

use vstd::prelude::*;

verus! {

/// The template subcommand's arguments.
pub struct TemplateCli {
    pub command: Command,
}

/// What the user asked the template store to do.
pub enum Command {
    Apply { template_name: String, list_of_files: Vec<String> },
    AddFiles { template_name: String, list_of_files: Vec<String> },
    Cp { source_template: String, dest_template: String },
    Mv { source_template: String, dest_template: String },
    Rm { template_name: String },
    Ls,
}

/// Runs template commands against the store under the given base path.
pub struct Executor {
    base_path: String,
}

impl View for Executor {
    type V = Seq<char>;

    closed spec fn view(&self) -> Seq<char> {
        self.base_path@
    }
}

impl Executor {
    /// An executor rooted at the given template store directory.
    pub fn new(base_path: String) -> (r: Self)
        ensures
            r@ == base_path@,
    {
        Executor { base_path }
    }

    /// The template store directory this executor works under.
    pub fn base_path(&self) -> (r: &String)
        ensures
            r@ == self@,
    {
        &self.base_path
    }
}

} // verus!
