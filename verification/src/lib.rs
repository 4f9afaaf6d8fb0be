//! An HTTP client core built around a composable middleware pipeline.
//!
//! A request is assembled by a builder, handed by move through an ordered
//! middleware list — retrying, redirect following, record/replay, and
//! token-refreshing authorization — and answered at the transport
//! terminator. The transport is represented by a scripted state, so every
//! decision the pipeline makes is verified against the model in
//! `middleware`; an embedding program supplies the network, the clock, the
//! sleeping, and the recording files.
#![verifier::loop_isolation(false)]

use vstd::prelude::*;

pub mod json;
pub mod body;
pub mod builder;
pub mod client;
pub mod codec;
pub mod error;
pub mod http;
pub mod middleware;
pub mod multipart;
pub mod oauth2;
pub mod recorder;
pub mod request;
pub mod response;
pub mod sanitize;
pub mod uri;

verus! {

/// The fixed token that replaces sensitive values in sanitized output.
pub fn sanitized_value() -> (r: &'static str)
    ensures
        r@ == crate::sanitize::token_chars(),
{
    "**********"
}

} // verus!
