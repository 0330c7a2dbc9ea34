//! Memorable passphrases drawn from a curated corpus of bird names: the
//! extraction pipeline that cleans a tabular source into a word list, the
//! corpus loaded once at startup and shared read-only, the assembler that
//! draws 4 distinct tokens and suffixes each with a random decimal digit,
//! and the request handler and client-IP attribution around them.

use vstd::prelude::*;

pub mod corpus;
pub mod extract;
pub mod handler;
pub mod net;
pub mod passphrase;
pub mod text;

verus! {

pub use crate::corpus::Corpus;
pub use crate::passphrase::InsufficientCorpusError;
pub use crate::passphrase::generate_password;

} // verus!
