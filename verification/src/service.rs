//! The request/response surface a custodian node exposes: join, store and
//! retrieve operations over a `ShareStore`.
//!
//! The operations here are the node's decision logic, from plain request
//! values to plain response values; the transport that carries them lives
//! outside the library.

use vstd::prelude::*;
use vstd::string::StringExecFns;

use crate::field::{be_val, field_order, lemma_be_val_injective, Scalar};
use crate::scheme::{FragmentError, Share};
use crate::storage::{bytes_to_scalar, scalar_to_bytes, ShareStore};

verus! {

/// The acknowledgment returned to a node joining a ceremony.
pub struct JoinOutcome {
    pub success: bool,
    pub assigned_index: u64,
    pub message: String,
}

/// The outcome of a request to store a share.
pub struct StoreOutcome {
    pub success: bool,
    pub message: String,
}

/// A share handed back to the coordinator: the ceremony id and the 32-byte
/// encodings of the share's coordinates.
pub struct RetrievedShare {
    pub ceremony_id: String,
    pub x: Vec<u8>,
    pub y: Vec<u8>,
}

/// The custodian service that runs on each node: stores and retrieves
/// secret shares on the coordinator's behalf.
pub struct CustodianService {
    store: ShareStore,
    node_id: String,
}

impl View for CustodianService {
    type V = Map<Seq<char>, (Seq<u8>, Seq<u8>)>;

    closed spec fn view(&self) -> Map<Seq<char>, (Seq<u8>, Seq<u8>)> {
        self.store@
    }
}

impl CustodianService {
    /// Creates a new custodian service holding the given store.
    pub fn new(store: ShareStore, node_id: String) -> (r: Self)
        ensures
            r@ == store@,
    {
        CustodianService { store, node_id }
    }

    /// Acknowledges a node joining a ceremony.  Bookkeeping only: it always
    /// succeeds and does not influence split or recover logic; index
    /// assignment is the coordinator's responsibility.
    pub fn join_ceremony(&self, node_id: &str) -> (r: JoinOutcome)
        ensures
            r.success,
            r.assigned_index == 0,
            r.message@ == "welcome to the ceremony, "@ + node_id@,
    {
        JoinOutcome {
            success: true,
            assigned_index: 0,
            message: String::from_str("welcome to the ceremony, ").concat(node_id),
        }
    }

    /// Stores a share sent by the coordinator.  The two coordinates must be
    /// 32 bytes each; they are decoded with modular reduction, so any
    /// 32-byte value is accepted, and a canonical encoding is stored back
    /// unchanged.  Malformed lengths are refused, leaving the store as it
    /// was.
    pub fn store_share(&mut self, ceremony_id: String, x: Vec<u8>, y: Vec<u8>) -> (r:
        StoreOutcome)
        ensures
            r.success == (x@.len() == 32 && y@.len() == 32),
            !r.success ==> final(self)@ == old(self)@,
            r.success ==> (exists|xb: Seq<u8>, yb: Seq<u8>|
                {
                    &&& xb.len() == 32 && be_val(xb) == be_val(x@) % field_order()
                    &&& yb.len() == 32 && be_val(yb) == be_val(y@) % field_order()
                    &&& final(self)@ == old(self)@.insert(ceremony_id@, (xb, yb))
                }),
            r.success && be_val(x@) < field_order() && be_val(y@) < field_order()
                ==> final(self)@ == old(self)@.insert(ceremony_id@, (x@, y@)),
    {
        if x.len() != 32 || y.len() != 32 {
            return StoreOutcome {
                success: false,
                message: String::from_str("malformed share encoding"),
            };
        }
        let sx = bytes_to_scalar(&x);
        let sy = bytes_to_scalar(&y);
        proof {
            if be_val(x@) < field_order() {
                vstd::arithmetic::div_mod::lemma_small_mod(be_val(x@), field_order());
                lemma_be_val_injective(sx@, x@);
            }
            if be_val(y@) < field_order() {
                vstd::arithmetic::div_mod::lemma_small_mod(be_val(y@), field_order());
                lemma_be_val_injective(sy@, y@);
            }
        }
        let ghost sxv = sx@;
        let ghost syv = sy@;
        let ghost cidv = ceremony_id@;
        self.store.store(ceremony_id, Share { x: sx, y: sy });
        proof {
            assert((exists|xb: Seq<u8>, yb: Seq<u8>|
                {
                    &&& xb.len() == 32 && be_val(xb) == be_val(x@) % field_order()
                    &&& yb.len() == 32 && be_val(yb) == be_val(y@) % field_order()
                    &&& self@ == old(self)@.insert(cidv, (xb, yb))
                })) by {
                assert(sxv.len() == 32 && be_val(sxv) == be_val(x@) % field_order());
                assert(syv.len() == 32 && be_val(syv) == be_val(y@) % field_order());
                assert(self@ == old(self)@.insert(cidv, (sxv, syv)));
            }
        }
        StoreOutcome { success: true, message: String::from_str("share stored successfully") }
    }

    /// Retrieves a previously stored share, or reports `ShareNotFound` for a
    /// ceremony id no share is held for.
    pub fn retrieve_share(&self, ceremony_id: String) -> (r: Result<
        RetrievedShare,
        FragmentError,
    >)
        ensures
            (match r {
                Ok(data) => {
                    &&& self@.contains_key(ceremony_id@)
                    &&& data.ceremony_id@ == ceremony_id@
                    &&& data.x@ == self@[ceremony_id@].0
                    &&& data.y@ == self@[ceremony_id@].1
                },
                Err(e) => e == FragmentError::ShareNotFound && !self@.contains_key(
                    ceremony_id@,
                ),
            }),
    {
        match self.store.retrieve(ceremony_id.as_str()) {
            Some(share) => Ok(
                RetrievedShare {
                    ceremony_id,
                    x: scalar_to_bytes(&share.x),
                    y: scalar_to_bytes(&share.y),
                },
            ),
            None => Err(FragmentError::ShareNotFound),
        }
    }
}

} // verus!
