//! Conversion of context-free grammars to Chomsky Normal Form.
//!
//! A grammar is a start symbol and a collection of production rules over
//! plain text symbols.  The conversion wraps the start symbol, eliminates
//! epsilon productions, eliminates unit productions, splits long productions
//! into binary chains over fresh nonterminals, resolves terminals that
//! appear beside other symbols, and finally tags every rule as a terminal
//! production or a binary nonterminal production.

pub mod cfg;
