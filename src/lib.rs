pub mod hex_text;
pub mod json_text;
pub mod encrypt;
pub mod credentials;
pub mod jwt;
pub mod routes;
pub mod route;
