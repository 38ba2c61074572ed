//! Selection of a storage engine by name.
//!
//! The two shipped engines share the contract `get` / `set` /
//! `shutdown_purge_task`; the runtime wraps whichever this selector
//! names into its shared handle.

use crate::simple_store::StoreError;
use vstd::string::StringSliceAdditionalSpecFns;
use vstd::prelude::*;

verus! {

broadcast use vstd::seq::group_seq_axioms, vstd::std_specs::vec::group_vec_axioms;

/// The UTF-8 bytes of the backend name `mini-redis`.
pub open spec fn mini_redis_name() -> Seq<u8> {
    seq![109u8, 105u8, 110u8, 105u8, 45u8, 114u8, 101u8, 100u8, 105u8, 115u8]
}

/// The UTF-8 bytes of the backend name `simple-store`.
pub open spec fn simple_store_name() -> Seq<u8> {
    seq![
        115u8, 105u8, 109u8, 112u8, 108u8, 101u8, 45u8, 115u8, 116u8, 111u8, 114u8, 101u8,
    ]
}

/// The shipped storage engines.
#[derive(Debug, PartialEq, Eq, Structural)]
pub enum Backend {
    SimpleStore,
    MiniRedis,
}

impl Backend {
    /// Resolves a backend name: exactly `mini-redis` and
    /// `simple-store` are recognised; anything else is rejected.
    pub fn from_str(backend_name: &str) -> (r: Result<Backend, StoreError>)
        ensures
            match r {
                Ok(b) => (b == Backend::MiniRedis && backend_name.spec_bytes()
                    == mini_redis_name()) || (b == Backend::SimpleStore
                    && backend_name.spec_bytes() == simple_store_name()),
                Err(e) => e == StoreError::UnknownBackend && backend_name.spec_bytes()
                    != mini_redis_name() && backend_name.spec_bytes() != simple_store_name(),
            },
    {
        let bytes = backend_name.as_bytes_vec();
        let mini: Vec<u8> = vec![109u8, 105u8, 110u8, 105u8, 45u8, 114u8, 101u8, 100u8, 105u8, 115u8];
        let simple: Vec<u8> = vec![
            115u8, 105u8, 109u8, 112u8, 108u8, 101u8, 45u8, 115u8, 116u8, 111u8, 114u8, 101u8,
        ];
        proof {
            assert(mini@ =~= mini_redis_name());
            assert(simple@ =~= simple_store_name());
        }
        if crate::frame::bytes_eq(&bytes, &mini) {
            Ok(Backend::MiniRedis)
        } else if crate::frame::bytes_eq(&bytes, &simple) {
            Ok(Backend::SimpleStore)
        } else {
            Err(StoreError::UnknownBackend)
        }
    }

    /// Lists every name `from_str` recognises.
    pub fn possible_names() -> (r: Vec<&'static str>)
        ensures
            r@.len() == 2,
            r@[0]@ == "mini-redis"@,
            r@[1]@ == "simple-store"@,
    {
        let names: Vec<&'static str> = vec!["mini-redis", "simple-store"];
        names
    }
}

} // verus!
