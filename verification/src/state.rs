//! The state of the application: the open vault and its backlinks index.
use vstd::prelude::*;
use crate::index::{BacklinkIndex, get_backlinks, strings_view};

verus! {

/// The open vault (if any) and its backlinks index.
pub struct AppState {
    pub current_vault: Option<String>,
    pub backlinks: BacklinkIndex,
}

impl AppState {
    /// No vault open, no backlinks.
    pub fn new() -> (r: Self)
        ensures
            r.current_vault is None,
            r.backlinks@ == Map::<Seq<char>, Seq<Seq<char>>>::empty(),
    {
        AppState { current_vault: None, backlinks: BacklinkIndex::new() }
    }

    /// The root of the open vault, or the error "Vault not opened".
    pub fn vault_root(&self) -> (r: Result<String, String>)
        ensures
            match self.current_vault {
                Some(v) => r is Ok && r->Ok_0@ == v@,
                None => r is Err && r->Err_0@ == "Vault not opened"@,
            },
    {
        match &self.current_vault {
            Some(v) => Ok(v.clone()),
            None => Err("Vault not opened".to_owned()),
        }
    }

    /// Opens the vault at `path`, whose backlinks index is `backlinks`.
    pub fn open_vault(&mut self, path: String, backlinks: BacklinkIndex)
        ensures
            final(self).current_vault matches Some(v) && v@ == path@,
            final(self).backlinks@ == backlinks@,
    {
        self.current_vault = Some(path);
        self.backlinks = backlinks;
    }

    /// The notes that link to `note_name`; empty when there are none.
    pub fn backlinks_of(&self, note_name: &str) -> (r: Vec<String>)
        ensures
            strings_view(r@) == if self.backlinks@.dom().contains(note_name@) {
                self.backlinks@[note_name@]
            } else {
                Seq::<Seq<char>>::empty()
            },
    {
        get_backlinks(&self.backlinks, note_name)
    }
}

/// Whether `path` can be opened as a vault: it must be an existing
/// directory (`is_dir`), otherwise the error "Invalid vault path".
pub fn check_vault_dir(is_dir: bool) -> (r: Result<(), String>)
    ensures
        is_dir ==> r is Ok,
        !is_dir ==> r is Err && r->Err_0@ == "Invalid vault path"@,
{
    if is_dir {
        Ok(())
    } else {
        Err("Invalid vault path".to_owned())
    }
}

} // verus!
