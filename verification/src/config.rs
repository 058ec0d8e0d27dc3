//! User configuration of the effort indicator's data service.

use vstd::prelude::*;

verus! {

/// The access token of the effort data service; empty when none is set.
#[derive(Clone, Debug, Default, PartialEq)]
pub struct GWTradeConfig {
    pub token: String,
}

} // verus!
