pub mod account;
pub mod login;
