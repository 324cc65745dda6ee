//! Core of a recogniser for hand-drawn LaTeX symbols: the symbol catalogue
//! and its stable identifiers, the ranking of a classifier's scores into a
//! list of identifiers, and the decisions of the classification worker.

pub mod encoding;
pub mod ranking;
pub mod symbol;
pub mod table;
pub mod worker;

pub use symbol::Symbol;
pub use table::SymbolTable;
