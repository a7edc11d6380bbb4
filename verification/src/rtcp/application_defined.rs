//! Application-defined packets, carried through as uninterpreted bytes.

use crate::octets::Octets;
use crate::rtcp::{lift, short_buffer, RtcpError};
use vstd::prelude::*;

verus! {

/// An application-defined packet: the subtype from the header's count field
/// and the packet's body as it came.
#[derive(Debug, Clone, Eq, PartialEq, Hash)]
pub struct RtcpApplicationDefinedPacket {
    pub subtype: u8,
    pub data: Vec<u8>,
}

/// What an application-defined packet holds.
pub struct ApplicationDefined {
    pub subtype: u8,
    pub data: Seq<u8>,
}

impl ApplicationDefined {
    /// The body on the wire: the bytes as they are.
    pub open spec fn wire(self) -> Seq<u8> {
        self.data
    }

    /// What a body decodes to under the subtype `subtype`.
    pub open spec fn parse(b: Seq<u8>, subtype: u8) -> ApplicationDefined {
        ApplicationDefined { subtype, data: b }
    }
}

impl View for RtcpApplicationDefinedPacket {
    type V = ApplicationDefined;

    open spec fn view(&self) -> ApplicationDefined {
        ApplicationDefined { subtype: self.subtype, data: self.data@ }
    }
}

impl RtcpApplicationDefinedPacket {
    /// An application-defined packet of the given subtype and body.
    pub fn new(subtype: u8, data: Vec<u8>) -> (r: Self)
        ensures
            r@ == (ApplicationDefined { subtype, data: data@ }),
    {
        RtcpApplicationDefinedPacket { subtype, data }
    }

    /// The length of the body on the wire, in bytes.
    pub fn get_length(&self) -> (n: u32)
        requires
            self@.data.len() <= u32::MAX,
        ensures
            n == self@.wire().len(),
    {
        self.data.len() as u32
    }

    /// The subtype, for the packet header's count field.
    pub fn get_subtype(&self) -> (n: u8)
        ensures
            n == self@.subtype,
    {
        self.subtype
    }

    /// Writes the body at the cursor: all of it, or nothing where it does
    /// not fit.
    pub fn to_bytes(&self, out: &mut Octets) -> (r: Result<(), RtcpError>)
        requires
            old(out).wf(),
        ensures
            final(final(out).buf)@ == final(old(out).buf)@,
            match r {
                Ok(_) => {
                    &&& old(out).rest().len() >= self@.wire().len()
                    &&& final(out).wrote(old(out), self@.wire())
                },
                Err(e) => {
                    &&& old(out).rest().len() < self@.wire().len()
                    &&& e == short_buffer()
                    &&& final(out).stopped(old(out), self@.wire())
                },
            },
    {
        lift(out.put_bytes(self.data.as_slice()))
    }

    /// Takes all that is left in the cursor as the packet's body. The bytes
    /// stay unread in the cursor.
    pub fn from_bytes(bytes: &Octets, subtype: u8) -> (r: RtcpApplicationDefinedPacket)
        requires
            bytes.wf(),
        ensures
            r@ == ApplicationDefined::parse(bytes.rest(), subtype),
    {
        RtcpApplicationDefinedPacket { subtype, data: bytes.to_vec() }
    }
}

} // verus!
