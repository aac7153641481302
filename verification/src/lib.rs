//! The core of a terminal IRC client.
//!
//! - Scripts: [`text`], [`number`], [`quote`], [`subst`], [`ast`], [`grammar`],
//!   [`parser`], [`host`], [`outside`], [`eval`] and [`interp`] read and run the
//!   commands that a user types or loads from a file.
//! - The protocol: [`irc`] reads protocol lines, [`link`] says what is done on
//!   a connection.
//! - The user interface: [`wrap`], [`app`] and [`client`] hold what is shown
//!   and what is typed, and do what commands ask for.
//!
//! Nothing here reads files, draws or talks to the network. The modules whose
//! names end in `_laws` state what holds of the others as a whole.

pub mod app;
pub mod app_laws;
pub mod ast;
pub mod client;
pub mod client_laws;
pub mod eval;
pub mod eval_laws;
pub mod grammar;
pub mod grammar_laws;
pub mod host;
pub mod interp;
pub mod interp_laws;
pub mod irc;
pub mod irc_laws;
pub mod layout_laws;
pub mod link;
pub mod number;
pub mod outside;
pub mod parser;
pub mod quote;
pub mod subst;
pub mod text;
pub mod text_laws;
pub mod wrap;
pub mod wrap_laws;
