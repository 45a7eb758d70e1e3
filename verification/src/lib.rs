//! A verified codec for DNS messages — header bit-packing, domain-name
//! encoding with compression-pointer decoding, question and resource-record
//! layouts — together with the pure decision logic of a minimal responder
//! that either synthesizes stub answers or splits a multi-question query
//! into singleton sub-queries for an upstream resolver.

use vstd::prelude::*;

pub mod error;
pub mod header;
pub mod name;
pub mod question;
pub mod message;
pub mod record;
pub mod responder;
pub mod wire;

verus! {

/// Types that serialize themselves onto a byte sink.
///
/// `wire` is the exact byte image the type produces; `serializable` gathers
/// the field-range conditions (the caller's responsibility per the wire
/// format) under which serializing is meaningful.
pub trait ByteSerialize {
    /// The exact bytes this value serializes to.
    spec fn wire(&self) -> Seq<u8>;

    /// Field ranges under which `wire` is the faithful image of the value.
    spec fn serializable(&self) -> bool;

    /// Appends this value's byte image to `buf`.
    fn serialize(&self, buf: &mut Vec<u8>)
        requires
            self.serializable(),
        ensures
            final(buf)@ == old(buf)@ + self.wire(),
    ;
}

} // verus!
