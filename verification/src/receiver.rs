//! The background receiver's decision step.
//!
//! The receiver owns the socket's read side for the process's lifetime.
//! For every datagram it decodes a response and, if a waiter is registered
//! under the response's correlation key, removes and returns that waiter
//! for fulfillment.  Everything else — malformed datagrams, and responses
//! whose key matches no entry — is dropped with no effect on the table.

use vstd::prelude::*;
use crate::codec::{data_matches, decode_response, spec_decode_response};
use crate::packet::{CorrelationKey, ResponsePacket};
use crate::table::CorrelationTable;

verus! {

/// One receiver step on one datagram: decode it and take the waiter for
/// its `(kind, id)` key, if any.  Fulfilling the waiter with the returned
/// response is the caller's part.
///
/// A datagram that does not decode, or whose key has no registered waiter
/// (a duplicate or stale response), leaves the table exactly as it was.
pub fn match_response<V>(table: &mut CorrelationTable<V>, datagram: &Vec<u8>) -> (r: Option<
    (ResponsePacket, V),
>)
    ensures
        match r {
            Some((p, w)) => {
                &&& spec_decode_response(datagram@) matches Ok(m) && p.req == m.0 && p.id == m.1
                    && p.res == m.2 && data_matches(p.data, m.3)
                &&& old(table)@.dom().contains(p.spec_key())
                &&& w == old(table)@[p.spec_key()]
                &&& final(table)@ == old(table)@.remove(p.spec_key())
            },
            None => {
                &&& final(table)@ == old(table)@
                &&& (spec_decode_response(datagram@) matches Ok(m) ==> !old(
                    table,
                )@.dom().contains(CorrelationKey { req: m.0, id: m.1 }))
            },
        },
{
    match decode_response(datagram) {
        Err(_) => None,
        Ok(p) => {
            let k = p.key();
            match table.take(k) {
                None => None,
                Some(w) => Some((p, w)),
            }
        },
    }
}

/// Delivery to one key cannot touch another: removing `k1`'s entry leaves
/// every other registration, and its waiter, exactly in place.  Together
/// with [`match_response`]'s contract — the waiter handed out is the one
/// registered under the response's own key — concurrent requests with
/// distinct keys can never receive each other's responses.
pub proof fn lemma_no_cross_talk<V>(m: Map<CorrelationKey, V>, k1: CorrelationKey, k2: CorrelationKey)
    requires
        m.dom().contains(k1),
        m.dom().contains(k2),
        k1 != k2,
    ensures
        !m.remove(k1).dom().contains(k1),
        m.remove(k1).dom().contains(k2),
        m.remove(k1)[k2] == m[k2],
{
}

/// Cleanup is idempotent: removing a correlation entry that is already
/// gone changes nothing, and never fails.  The executable counterpart is
/// [`CorrelationTable::take`], whose second call under the same key
/// returns `None` and leaves the table as it is.
pub proof fn lemma_cleanup_idempotent<V>(m: Map<CorrelationKey, V>, k: CorrelationKey)
    ensures
        m.remove(k).remove(k) == m.remove(k),
        !m.remove(k).dom().contains(k),
{
    assert(m.remove(k).remove(k) =~= m.remove(k));
}

} // verus!
