//! What the application remembers between runs.

use std::path::PathBuf;
use vstd::prelude::*;

verus! {

/// A path of the file system: carried, never looked into.
#[verifier::external_type_specification]
#[verifier::external_body]
pub struct ExPathBuf(std::path::PathBuf);

/// The accounts whose games make up the repertoire, and the place where the
/// repertoire was last stored.
#[derive(Clone, Debug)]
pub struct App {
    chess_com_usernames: Vec<String>,
    last_db: Option<PathBuf>,
}

impl App {
    /// Settings for the given accounts, in this order.
    pub fn new(chess_com_usernames: Vec<String>, last_db: Option<PathBuf>) -> (app: Self)
        ensures
            app.usernames() == chess_com_usernames,
            app.stored_at() == last_db,
    {
        App { chess_com_usernames, last_db }
    }

    /// The accounts, in the order given.
    pub closed spec fn usernames(&self) -> Vec<String> {
        self.chess_com_usernames
    }

    /// The place where the repertoire was last stored, if it ever was.
    pub closed spec fn stored_at(&self) -> Option<PathBuf> {
        self.last_db
    }

    /// The accounts whose games are ingested, in the order given.
    pub fn chess_com_usernames(&self) -> (names: &Vec<String>)
        ensures
            *names == self.usernames(),
    {
        &self.chess_com_usernames
    }

    /// The place where the repertoire was last stored, if it ever was.
    pub fn last_db(&self) -> (path: &Option<PathBuf>)
        ensures
            *path == self.stored_at(),
    {
        &self.last_db
    }

    /// Remembers where the repertoire was stored.
    pub fn remember_db(&mut self, path: PathBuf)
        ensures
            final(self).stored_at() == Some(path),
            final(self).usernames() == old(self).usernames(),
    {
        self.last_db = Some(path);
    }
}

} // verus!
