//! Data backend of a personal-finance viewer: an incremental S-expression
//! parser, a decoder of transaction records, a hierarchical balance
//! aggregator, and the framing rules of a REPL session with an accounting tool.
pub mod accounts;
pub mod checkbox;
pub mod decimal;
pub mod ledger;
pub mod sexpr;
pub mod state;
pub mod text;
pub mod transactions;
