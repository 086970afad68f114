//! Library for a command-driven tool that inspects and mutates byte ranges
//! inside named persistent configuration variables of a host platform.
//!
//! The library is the computational core: the grammar for operation tokens
//! (`Name[(Id)]:Offset[(Size)][=Value]`), the script language around it
//! (comments, option directives, alias definitions and references), the
//! decimal and hexadecimal literal parsers, and the resolution pass that
//! turns parsed entries into an ordered list of operations plus global
//! option flags.  Reading tokens or script text from the platform, and
//! applying the resolved operations to the platform's variable store, are
//! left to a thin unverified driver around this crate.

pub mod data;
pub mod error;
pub mod parse;
pub mod store;
pub mod text;
