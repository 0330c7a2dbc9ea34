//! The request handler's decision: one generate request borrows the shared
//! corpus, draws a passphrase, and becomes a status code and a body. The
//! corpus is only read, so arbitrarily many handlers may run at once with no
//! locking; the transport that carries the response is an outside
//! collaborator.

use vstd::prelude::*;

use crate::corpus::Corpus;
use crate::passphrase::admissible_passphrase;
use crate::passphrase::generate_password;

verus! {

/// The status served on success.
pub const STATUS_OK: u16 = 200;

/// The status served when assembly fails.
pub const STATUS_SERVER_ERROR: u16 = 500;

/// Serves one generate request against the shared corpus: the passphrase
/// with success status when the corpus holds at least 4 tokens, else the
/// failure's description with a server-error status. Errors are converted
/// here and never propagate further.
pub fn handle_generate(corpus: &Corpus) -> (r: (u16, String))
    ensures
        r.0 == STATUS_OK <==> corpus@.len() >= 4,
        r.0 == STATUS_OK ==> admissible_passphrase(r.1@, corpus@),
        r.0 != STATUS_OK ==> r.0 == STATUS_SERVER_ERROR && r.1@
            == "the corpus holds fewer than 4 tokens"@,
{
    match generate_password(corpus) {
        Ok(p) => (STATUS_OK, p),
        Err(e) => (STATUS_SERVER_ERROR, e.message()),
    }
}

} // verus!
