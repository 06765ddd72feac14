pub mod basic;
pub mod jwt;
pub mod tokens;
