//! Payload-specific feedback: two identifiers and feedback control
//! information that is carried through uninterpreted.

use crate::octets::{
    lemma_spliced_twice, lemma_u32_at_write, lemma_u32_read_at, u32_at, u32_octets, Octets,
};
use crate::rtcp::{lift, short_buffer, RtcpError};
use vstd::prelude::*;

verus! {

/// A payload-specific feedback packet.
#[derive(Debug, Clone, Eq, PartialEq, Hash)]
pub struct RtcpPayloadSpecificFeedbackPacket {
    pub format: u8,
    pub ssrc: u32,
    pub media_ssrc: u32,
    pub fci: Vec<u8>,
}

/// What a payload-specific feedback packet holds.
pub struct PayloadFeedback {
    pub format: u8,
    pub ssrc: u32,
    pub media_ssrc: u32,
    pub fci: Seq<u8>,
}

impl PayloadFeedback {
    /// The body on the wire: the two identifiers, then the feedback control
    /// information as it is.
    pub open spec fn wire(self) -> Seq<u8> {
        u32_octets(self.ssrc) + u32_octets(self.media_ssrc) + self.fci
    }

    /// What a body decodes to under the format code `format`.
    pub open spec fn parse(b: Seq<u8>, format: u8) -> Result<PayloadFeedback, RtcpError> {
        if b.len() < 8 {
            Err(RtcpError::InvalidPsfbPacketLength)
        } else {
            Ok(
                PayloadFeedback {
                    format,
                    ssrc: u32_at(b, 0),
                    media_ssrc: u32_at(b, 4),
                    fci: b.skip(8),
                },
            )
        }
    }

    /// The wire form of a packet decodes to the packet.
    pub proof fn lemma_wire_then_parse(self)
        ensures
            Self::parse(self.wire(), self.format) == Ok::<PayloadFeedback, RtcpError>(self),
    {
        let b = self.wire();
        assert(b.subrange(0, 4) =~= u32_octets(self.ssrc));
        assert(b.subrange(4, 8) =~= u32_octets(self.media_ssrc));
        assert(b.skip(8) =~= self.fci);
        lemma_u32_read_at(b, 0, self.ssrc);
        lemma_u32_read_at(b, 4, self.media_ssrc);
    }

    /// A body that decodes is the wire form of what it decodes to.
    pub proof fn lemma_parse_then_wire(b: Seq<u8>, format: u8)
        requires
            Self::parse(b, format) is Ok,
        ensures
            Self::parse(b, format)->Ok_0.wire() == b,
            Self::parse(b, format)->Ok_0.format == format,
    {
        lemma_u32_at_write(b, 0);
        lemma_u32_at_write(b, 4);
        assert(b.subrange(0, 4) + b.subrange(4, 8) + b.skip(8) =~= b);
    }
}

impl View for RtcpPayloadSpecificFeedbackPacket {
    type V = PayloadFeedback;

    open spec fn view(&self) -> PayloadFeedback {
        PayloadFeedback {
            format: self.format,
            ssrc: self.ssrc,
            media_ssrc: self.media_ssrc,
            fci: self.fci@,
        }
    }
}

impl RtcpPayloadSpecificFeedbackPacket {
    /// A feedback packet of the given format code, identifiers and feedback
    /// control information.
    pub fn new(format: u8, ssrc: u32, media_ssrc: u32, fci: Vec<u8>) -> (r: Self)
        ensures
            r@ == (PayloadFeedback { format, ssrc, media_ssrc, fci: fci@ }),
    {
        RtcpPayloadSpecificFeedbackPacket { format, ssrc, media_ssrc, fci }
    }

    /// The length of the body on the wire, in bytes.
    pub fn get_length(&self) -> (n: u32)
        requires
            8 + self@.fci.len() <= u32::MAX,
        ensures
            n == self@.wire().len(),
    {
        4 + 4 + self.fci.len() as u32
    }

    /// The format code, for the packet header's count field.
    pub fn get_format(&self) -> (n: u8)
        ensures
            n == self@.format,
    {
        self.format
    }

    /// Writes the body at the cursor. Fails, with the buffer possibly written
    /// in part, exactly when the body does not fit.
    pub fn to_bytes(&self, out: &mut Octets) -> (r: Result<(), RtcpError>)
        requires
            old(out).wf(),
        ensures
            final(final(out).buf)@ == final(old(out).buf)@,
            match r {
                Ok(_) => {
                    &&& old(out).rest().len() >= self@.wire().len()
                    &&& final(out).wrote(old(out), self@.wire())
                },
                Err(e) => {
                    &&& old(out).rest().len() < self@.wire().len()
                    &&& e == short_buffer()
                    &&& final(out).stopped(old(out), self@.wire())
                },
            },
    {
        let ghost b0 = out.bytes();
        let ghost p = out.pos();
        lift(out.put_u32(self.ssrc))?;
        lift(out.put_u32(self.media_ssrc))?;
        proof {
            lemma_spliced_twice(b0, p, u32_octets(self.ssrc), u32_octets(self.media_ssrc));
        }
        lift(out.put_bytes(self.fci.as_slice()))?;
        proof {
            lemma_spliced_twice(
                b0,
                p,
                u32_octets(self.ssrc) + u32_octets(self.media_ssrc),
                self.fci@,
            );
        }
        Ok(())
    }

    /// Reads the two identifiers and takes all that follows as feedback
    /// control information, which stays unread in the cursor. Fails, with
    /// nothing read, exactly when fewer than 8 bytes are left.
    pub fn from_bytes(bytes: &mut Octets, format: u8) -> (r: Result<
        RtcpPayloadSpecificFeedbackPacket,
        RtcpError,
    >)
        requires
            old(bytes).wf(),
        ensures
            final(final(bytes).buf)@ == final(old(bytes).buf)@,
            final(bytes).wf(),
            final(bytes).bytes() == old(bytes).bytes(),
            r is Ok <==> old(bytes).rest().len() >= 8,
            match r {
                Ok(p) => {
                    &&& PayloadFeedback::parse(old(bytes).rest(), format) == Ok::<
                        PayloadFeedback,
                        RtcpError,
                    >(p@)
                    &&& final(bytes).pos() == old(bytes).pos() + 8
                },
                Err(e) => {
                    &&& e == RtcpError::InvalidPsfbPacketLength
                    &&& final(bytes).pos() == old(bytes).pos()
                },
            },
    {
        if bytes.cap() < 8 {
            return Err(RtcpError::InvalidPsfbPacketLength);
        }
        let ssrc = lift(bytes.get_u32())?;
        let media_ssrc = lift(bytes.get_u32())?;
        let fci = bytes.to_vec();
        proof {
            assert(fci@ =~= old(bytes).rest().skip(8));
        }
        Ok(RtcpPayloadSpecificFeedbackPacket { format, ssrc, media_ssrc, fci })
    }
}

} // verus!
