//! Users and what each may do.

use crate::text::str_eq;
use vstd::prelude::*;

verus! {

/// A registered user, as far as the authorization policy reads it.
#[derive(Debug, Clone)]
pub struct User {
    pub username: String,
    pub is_admin: bool,
    pub is_editor: bool,
    pub is_banned: bool,
}

impl User {
    /// Whether the user may create new items: anyone who is not banned.
    pub open spec fn spec_may_create(&self) -> bool {
        !self.is_banned
    }

    /// Whether the user may edit an item created by `creator`: its creator or an editor,
    /// if not banned.
    pub open spec fn spec_may_edit(&self, creator: Seq<char>) -> bool {
        !self.is_banned && (self.username@ == creator || self.is_editor)
    }

    /// Whether the user may delete items: editors who are not banned.
    pub open spec fn spec_may_delete(&self) -> bool {
        !self.is_banned && self.is_editor
    }

    pub fn may_create(&self) -> (r: bool)
        ensures
            r == self.spec_may_create(),
    {
        !self.is_banned
    }

    pub fn may_edit(&self, creator: &str) -> (r: bool)
        ensures
            r == self.spec_may_edit(creator@),
    {
        !self.is_banned && (self.is_editor || str_eq(self.username.as_str(), creator))
    }

    pub fn may_delete(&self) -> (r: bool)
        ensures
            r == self.spec_may_delete(),
    {
        !self.is_banned && self.is_editor
    }
}

} // verus!
