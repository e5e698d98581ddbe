pub mod assignments;
pub mod database;
pub mod parser;
pub mod proof_search;
pub mod term;
pub mod unification;
