//! Client-IP attribution for the observability wrapper: which address a
//! request is charged to when the service sits behind a proxy. The transport
//! and the log sink are outside collaborators; only this resolution policy is
//! the core's own.

use vstd::prelude::*;
use vstd::string::StrSliceExecFns;

use crate::text::split_on;
use crate::text::split_str;
use crate::text::trim_str;
use crate::text::trimmed;
use crate::text::lemma_split_len_pos;

verus! {

/// The address a request is attributed to: the platform-forwarded-IP header
/// when present; else the first comma-separated entry of the generic
/// forwarded-for header, trimmed of surrounding blanks; else the raw
/// transport peer address.
pub open spec fn attributed_ip(
    platform: Option<Seq<char>>,
    forwarded: Option<Seq<char>>,
    peer: Seq<char>,
) -> Seq<char> {
    if platform is Some {
        platform->0
    } else if forwarded is Some {
        trimmed(split_on(forwarded->0, ',')[0])
    } else {
        peer
    }
}

/// Resolves the client address for one request from the two proxy headers
/// and the transport peer, exactly as `attributed_ip` states.
pub fn resolve_client_ip(platform: Option<&str>, forwarded: Option<&str>, peer: &str) -> (r:
    String)
    ensures
        r@ == attributed_ip(platform.deep_view(), forwarded.deep_view(), peer@),
{
    match platform {
        Some(p) => p.to_owned(),
        None => match forwarded {
            Some(f) => {
                let entries = split_str(f, ',');
                proof {
                    lemma_split_len_pos(f@, ',');
                    assert(entries.deep_view()[0] == entries@[0].deep_view());
                }
                trim_str(entries[0].as_str())
            },
            None => peer.to_owned(),
        },
    }
}

} // verus!
