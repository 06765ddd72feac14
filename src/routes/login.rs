use vstd::prelude::*;
use crate::credentials::basic::BasicAuth;
use crate::encrypt::digest_hex_of;
use crate::routes::account::AccountRow;

verus! {

/// Why a login was refused.
#[derive(Debug, Clone, Copy, PartialEq, Eq, Structural)]
pub enum LoginFailure {
    /// The account store has no account of that id.
    AccountNotFound,
    /// The password does not hash to the stored hash.
    PasswordMismatch,
}

/// Checks credentials against the account that the store gave for their id.
pub fn check_login(auth: &BasicAuth, account: Option<&AccountRow>) -> (r: Result<(), LoginFailure>)
    ensures
        match account {
            None => r == Err::<(), LoginFailure>(LoginFailure::AccountNotFound),
            Some(row) => if row.passhash_view() == digest_hex_of(row.salt_view() + auth.view().1) {
                r is Ok
            } else {
                r == Err::<(), LoginFailure>(LoginFailure::PasswordMismatch)
            },
        },
{
    let row = match account {
        None => return Err(LoginFailure::AccountNotFound),
        Some(row) => row,
    };
    if row.password_matches(auth.password()) {
        Ok(())
    } else {
        Err(LoginFailure::PasswordMismatch)
    }
}

} // verus!
