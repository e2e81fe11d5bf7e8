//! A static permission and borrow checker for a small imperative language.
//!
//! Every place (a variable or a projection path into it) carries a set of
//! Read / Write / Own capabilities. The checker walks each function in
//! program order, tracks moves and live loans, and reports every statement
//! that uses a place without the capability the operation needs.
//!
//! Beside the checker stand small examples of owning and borrowing values
//! (`rectangles`, `basics`, `strings`, `documents`, `users`) and the number
//! guessing game (`guessing`).
pub mod place;
pub mod program;
pub mod semantics;
pub mod checker;
pub mod analysis;
pub mod rectangles;
pub mod basics;
pub mod documents;
pub mod users;
pub mod strings;
pub mod guessing;
pub mod laws;
