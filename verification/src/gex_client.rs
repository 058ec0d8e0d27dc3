//! The address the GEX client connects to: the service URL with the access
//! token passed, percent-encoded, as the `token` query parameter.

use vstd::prelude::*;
use vstd::string::StringExecFns;

verus! {

/// The percent-encoding of `s` that `urlencoding::encode` produces.
pub uninterp spec fn url_encoded(s: Seq<char>) -> Seq<char>;

/// Calls `urlencoding::encode` on the token; its result is the name
/// `url_encoded` of the token's characters. The encoding itself (which
/// characters are escaped, and how) is the crate's and is not written out.
#[verifier::external_body]
fn encode_token(token: &String) -> (r: String)
    ensures
        r@ == url_encoded(token@),
{
    urlencoding::encode(token).into_owned()
}

/// The websocket address for `url` and `token`: the URL, then `?token=`,
/// then the encoded token.
pub fn subscribe_url(url: &String, token: &String) -> (r: String)
    ensures
        r@ == url@ + "?token="@ + url_encoded(token@),
{
    let encoded = encode_token(token);
    let mut r = url.clone();
    r.append("?token=");
    r.append(encoded.as_str());
    r
}

} // verus!
