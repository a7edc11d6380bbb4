//! Goodbye packets: the list of sources that leave.

use crate::octets::{
    lemma_u32s_at_write, lemma_u32s_octets_len, lemma_u32s_read_at, read_u32s, u32s_at,
    u32s_octets, write_u32s, Octets,
};
use crate::rtcp::{lift, short_buffer, RtcpError};
use vstd::prelude::*;

verus! {

/// A goodbye packet: the identifiers of the sources that leave.
#[derive(Debug, Clone, Eq, PartialEq, Hash)]
pub struct RtcpGoodByePacket(pub Vec<u32>);

impl View for RtcpGoodByePacket {
    type V = Seq<u32>;

    open spec fn view(&self) -> Seq<u32> {
        self.0@
    }
}

/// The body of a goodbye packet on the wire: the identifiers, in order.
pub open spec fn good_bye_wire(sources: Seq<u32>) -> Seq<u8> {
    u32s_octets(sources)
}

/// What a body decodes to when the header counts `count` sources. Bytes
/// behind the last identifier are left unread.
pub open spec fn good_bye_parse(b: Seq<u8>, count: u8) -> Result<Seq<u32>, RtcpError> {
    if b.len() < 4 * count {
        Err(RtcpError::InvalidPacketLength)
    } else {
        Ok(u32s_at(b, 0, count as nat))
    }
}

/// A body that decodes starts with the wire form of what it decodes to, and
/// is that wire form when nothing follows the last identifier.
pub proof fn lemma_good_bye_parse_then_wire(b: Seq<u8>, count: u8)
    requires
        good_bye_parse(b, count) is Ok,
    ensures
        good_bye_parse(b, count)->Ok_0.len() == count,
        good_bye_wire(good_bye_parse(b, count)->Ok_0) == b.take(4 * count),
        good_bye_wire(good_bye_parse(b, count)->Ok_0) == b <==> b.len() == 4 * count,
{
    lemma_u32s_at_write(b, 0, count as nat);
    lemma_u32s_octets_len(u32s_at(b, 0, count as nat));
    if b.len() == 4 * count {
        assert(b.take(4 * count) =~= b);
    }
}

/// The wire form of a list of sources decodes to the list.
pub proof fn lemma_good_bye_wire_then_parse(sources: Seq<u32>)
    requires
        sources.len() <= 255,
    ensures
        good_bye_parse(good_bye_wire(sources), sources.len() as u8) == Ok::<Seq<u32>, RtcpError>(
            sources,
        ),
{
    let b = good_bye_wire(sources);
    lemma_u32s_octets_len(sources);
    assert(b.subrange(0, 4 * (sources.len() as int)) =~= b);
    lemma_u32s_read_at(b, 0, sources);
}

impl RtcpGoodByePacket {
    /// The length of the body on the wire, in bytes.
    pub fn get_length(&self) -> (n: u32)
        requires
            4 * self@.len() <= u32::MAX,
        ensures
            n == good_bye_wire(self@).len(),
    {
        proof {
            lemma_u32s_octets_len(self@);
        }
        self.0.len() as u32 * 4
    }

    /// The number of sources, for the packet header's count field.
    pub fn get_sources_count(&self) -> (n: u8)
        requires
            self@.len() <= u8::MAX,
        ensures
            n == self@.len(),
    {
        self.0.len() as u8
    }

    /// Writes the identifiers at the cursor. Fails, with the buffer possibly
    /// written in part, exactly when they do not all fit.
    pub fn to_bytes(&self, out: &mut Octets) -> (r: Result<(), RtcpError>)
        requires
            old(out).wf(),
        ensures
            final(final(out).buf)@ == final(old(out).buf)@,
            match r {
                Ok(_) => {
                    &&& old(out).rest().len() >= 4 * self@.len()
                    &&& final(out).wrote(old(out), good_bye_wire(self@))
                },
                Err(e) => {
                    &&& old(out).rest().len() < 4 * self@.len()
                    &&& e == short_buffer()
                    &&& final(out).stopped(old(out), good_bye_wire(self@))
                },
            },
    {
        lift(write_u32s(&self.0, out))
    }

    /// Reads `count` identifiers. Fails, with nothing read, exactly when
    /// fewer than `4 * count` bytes are left.
    pub fn from_bytes(bytes: &mut Octets, count: u8) -> (r: Result<RtcpGoodByePacket, RtcpError>)
        requires
            old(bytes).wf(),
        ensures
            final(final(bytes).buf)@ == final(old(bytes).buf)@,
            final(bytes).wf(),
            final(bytes).bytes() == old(bytes).bytes(),
            r is Ok <==> old(bytes).rest().len() >= 4 * count,
            match r {
                Ok(p) => {
                    &&& good_bye_parse(old(bytes).rest(), count) == Ok::<Seq<u32>, RtcpError>(p@)
                    &&& final(bytes).pos() == old(bytes).pos() + 4 * count
                },
                Err(e) => {
                    &&& e == RtcpError::InvalidPacketLength
                    &&& final(bytes).pos() == old(bytes).pos()
                },
            },
    {
        if bytes.cap() < 4 * (count as usize) {
            return Err(RtcpError::InvalidPacketLength);
        }
        let sources = lift(read_u32s(bytes, count as usize))?;
        proof {
            assert(sources@ =~= u32s_at(old(bytes).rest(), 0, count as nat));
        }
        Ok(RtcpGoodByePacket(sources))
    }
}

} // verus!
