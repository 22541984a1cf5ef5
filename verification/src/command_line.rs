//! The arguments of the program.
use vstd::prelude::*;

verus! {

/// The arguments of the program: the folder to analyse, as an absolute path
/// with no symbolic link.
pub struct CmdArgs {
    pub folder_to_analyse: String,
}

} // verus!
