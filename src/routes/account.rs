use vstd::prelude::*;
use crate::encrypt::{digest_hex_of, Salt};
use crate::json_text::same_text;

verus! {

/// An account as the account store keeps it.
pub struct AccountRow {
    id: String,
    salt: String,
    passhash: String,
}

impl AccountRow {
    pub closed spec fn id_view(&self) -> Seq<char> {
        self.id@
    }

    pub closed spec fn salt_view(&self) -> Seq<char> {
        self.salt@
    }

    pub closed spec fn passhash_view(&self) -> Seq<char> {
        self.passhash@
    }

    pub fn new(id: String, salt: String, passhash: String) -> (r: Self)
        ensures
            r.id_view() == id@,
            r.salt_view() == salt@,
            r.passhash_view() == passhash@,
    {
        AccountRow { id, salt, passhash }
    }

    pub fn id(&self) -> (r: &str)
        ensures
            r@ == self.id_view(),
    {
        self.id.as_str()
    }

    pub fn salt(&self) -> (r: &str)
        ensures
            r@ == self.salt_view(),
    {
        self.salt.as_str()
    }

    pub fn passhash(&self) -> (r: &str)
        ensures
            r@ == self.passhash_view(),
    {
        self.passhash.as_str()
    }

    /// Whether `password`, hashed after this account's salt, gives the stored hash.
    pub fn password_matches(&self, password: &str) -> (r: bool)
        ensures
            r == (self.passhash_view() == digest_hex_of(self.salt_view() + password@)),
    {
        let hashed = Salt::from(self.salt.as_str()).salt(password);
        same_text(self.passhash.as_str(), hashed.as_str())
    }
}

} // verus!
