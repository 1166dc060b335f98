use vstd::prelude::*;

verus! {

/// The command line: the folder to scan (the current one where absent),
/// whether to count file sizes rather than their block usage on disk, and
/// whether to delete without asking for confirmation.
#[derive(Debug, Clone, PartialEq, Eq)]
pub struct Opt {
    pub folder: Option<String>,
    pub apparent_size: bool,
    pub disable_delete_confirmation: bool,
}

} // verus!
