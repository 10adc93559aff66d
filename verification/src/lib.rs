//! Move VM RPC support library: a type-directed bidirectional codec between
//! canonical binary value encodings, typed value trees, and JSON, together
//! with compiled-module introspection and call-argument binding.
use vstd::prelude::*;

pub mod canon;
pub mod constant;
pub mod convert;
pub mod errors;
pub mod fn_call;
pub mod hex;
pub mod info;
pub mod json;
pub mod model;
pub mod text;
pub mod types;
pub mod value;

verus! {

/// Gas estimation result reported to RPC clients.
pub struct Estimation {
    pub gas_used: u64,
    pub status_code: u64,
}

impl Estimation {
    pub fn new(gas_used: u64, status_code: u64) -> (r: Estimation)
        ensures
            r.gas_used == gas_used,
            r.status_code == status_code,
    {
        Estimation { gas_used, status_code }
    }
}

/// A handle on the RPC backend: the client the dispatcher asks for state,
/// and the block type it is parameterized over.
pub struct MVMApi<C, P> {
    pub client: std::sync::Arc<C>,
    pub _marker: core::marker::PhantomData<P>,
}

impl<C, P> MVMApi<C, P> {
    pub fn new(client: std::sync::Arc<C>) -> (r: MVMApi<C, P>)
        ensures
            r.client == client,
    {
        MVMApi { client, _marker: core::marker::PhantomData }
    }
}

} // verus!
