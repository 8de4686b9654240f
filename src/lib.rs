//! A privilege-escalation gate: a policy language for who may run what as whom,
//! the last-match-wins decision over its rules, password checking across legacy
//! hash schemes and a short-lived session cache.
pub mod auth;
pub mod decision;
pub mod env;
pub mod env_map;
pub mod lexer;
pub mod options;
pub mod parser;
pub mod parser_err;
pub mod rules;
pub mod session;
pub mod text;
pub mod user;
pub mod userdb;
