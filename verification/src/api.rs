//! The web interface: who may use it, and what it is asked.
use vstd::prelude::*;

use crate::double::Double;
use crate::text::{same_text, starts_with, strip_first};

verus! {

/// A request to start a session
#[derive(Debug)]
pub struct StartRequest {
    pub token: String,
    pub order_size_usd: Option<Double>,
    pub leverage: Option<Double>,
    pub time_limit_secs: Option<u64>,
}

/// The header of a request carries the key.
pub open spec fn authorized(header: Option<Seq<char>>, api_key: Seq<char>) -> bool {
    match header {
        Some(v) => v == "Bearer "@ + api_key,
        None => false,
    }
}

/// Whether the authorization header of a request carries the key.
pub fn check_auth(header: Option<&str>, api_key: &str) -> (r: bool)
    ensures
        r == authorized(crate::signing::optional_text(header), api_key@),
{
    match header {
        Some(v) => {
            if starts_with(v, "Bearer ") {
                let token = strip_first(v, "Bearer ");
                assert(v@ =~= "Bearer "@ + token@);
                assert(("Bearer "@ + api_key@).skip("Bearer "@.len() as int) =~= api_key@);
                same_text(token.as_str(), api_key)
            } else {
                assert(("Bearer "@ + api_key@).take("Bearer "@.len() as int) =~= "Bearer "@);
                false
            }
        },
        None => false,
    }
}

} // verus!
