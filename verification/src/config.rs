use vstd::prelude::*;

verus! {

/// One repository selected for synchronization: its display name and the
/// filesystem path of the bare repository.
pub struct Repo {
    pub name: String,
    pub path: String,
}

/// The two ways the program runs: writing the store from the repositories,
/// or serving the store read-only.
pub enum Mode {
    Update,
    Server,
}

} // verus!
