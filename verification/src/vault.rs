//! The vault root: the one directory that every operation works below.

use crate::error::{framed, VaultError, VaultErrorView};
use vstd::prelude::*;
use vstd::string::*;

verus! {

/// The state of a session: the path of the vault root, once one is set.
#[derive(Debug, PartialEq, Eq)]
pub struct AppState {
    pub vault_path: Option<String>,
}

impl View for AppState {
    type V = Option<Seq<char>>;

    open spec fn view(&self) -> Option<Seq<char>> {
        match self.vault_path {
            Some(path) => Some(path@),
            None => None,
        }
    }
}

impl Default for AppState {
    /// A session without a vault.
    fn default() -> (state: AppState)
        ensures
            state@.is_none(),
    {
        AppState { vault_path: None }
    }
}

/// A result without a value, with the message of its error as a sequence of
/// characters.
pub open spec fn done_view(r: Result<(), VaultError>) -> Result<(), VaultErrorView> {
    match r {
        Ok(_) => Ok(()),
        Err(e) => Err(e@),
    }
}

/// A result that holds a text, as sequences of characters.
pub open spec fn text_result_view(r: Result<String, VaultError>) -> Result<
    Seq<char>,
    VaultErrorView,
> {
    match r {
        Ok(text) => Ok(text@),
        Err(e) => Err(e@),
    }
}

/// Makes `path` the vault root, given whether it exists on disk: a path
/// that does not exist is refused with `NotFound` and leaves the root as
/// it was.
pub fn set_vault(state: &mut AppState, path: String, exists: bool) -> (r: Result<(), VaultError>)
    ensures
        exists ==> r.is_ok() && final(state)@ == Some(path@),
        !exists ==> done_view(r) == Err::<(), VaultErrorView>(
            VaultErrorView::NotFound(framed("Path '"@, path@, "' does not exist"@)),
        ) && final(state)@ == old(state)@,
{
    if !exists {
        return Err(VaultError::path_missing(path.as_str()));
    }
    state.vault_path = Some(path);
    Ok(())
}

/// The vault root, if one is set.
pub fn get_vault(state: &AppState) -> (root: Option<String>)
    ensures
        match root {
            Some(path) => state@ == Some(path@),
            None => state@.is_none(),
        },
{
    match &state.vault_path {
        Some(path) => Some(path.clone()),
        None => None,
    }
}

/// The vault root, or `VaultUnset` where none is set: the first step of
/// every operation on the vault.
pub fn vault_root(state: &AppState) -> (r: Result<String, VaultError>)
    ensures
        text_result_view(r) == match state@ {
            Some(path) => Ok::<Seq<char>, VaultErrorView>(path),
            None => Err::<Seq<char>, VaultErrorView>(VaultErrorView::VaultUnset),
        },
{
    match &state.vault_path {
        Some(path) => Ok(path.clone()),
        None => Err(VaultError::VaultUnset),
    }
}

} // verus!
