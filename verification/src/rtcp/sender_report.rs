//! Sender reports: the sender's identifier, its sending statistics and a list
//! of report blocks.

use crate::octets::{
    lemma_spliced_twice, lemma_u32_at_write, lemma_u32_read_at, lemma_u64_at_write,
    lemma_u64_read_at, u32_at, u32_octets, u64_at, u64_octets, Octets,
};
use crate::rtcp::report_block::{
    blocks_at, blocks_fit, blocks_wire, lemma_blocks_at_then_wire, lemma_blocks_wire_len,
    lemma_blocks_wire_then_read, read_blocks, write_blocks, RtcpReportBlock,
};
use crate::rtcp::{lift, short_buffer, RtcpError};
use vstd::prelude::*;

verus! {

/// What a sender says of its own stream.
#[derive(Debug, Clone, Eq, PartialEq, Hash)]
pub struct RtcpSenderInfo {
    pub ntp_timestamp: u64,
    pub rtp_timestamp: u32,
    pub packet_count: u32,
    pub octet_count: u32,
}

impl RtcpSenderInfo {
    /// The 20 bytes of the sender information on the wire.
    #[verifier::opaque]
    pub open spec fn wire(&self) -> Seq<u8> {
        u64_octets(self.ntp_timestamp) + u32_octets(self.rtp_timestamp) + u32_octets(
            self.packet_count,
        ) + u32_octets(self.octet_count)
    }

    /// The sender information that the 20 bytes from position `at` stand for.
    pub open spec fn read(b: Seq<u8>, at: int) -> RtcpSenderInfo {
        RtcpSenderInfo {
            ntp_timestamp: u64_at(b, at),
            rtp_timestamp: u32_at(b, at + 8),
            packet_count: u32_at(b, at + 12),
            octet_count: u32_at(b, at + 16),
        }
    }

    /// The sender information is 20 bytes long.
    pub proof fn lemma_wire_len(&self)
        ensures
            self.wire().len() == 20,
    {
        reveal(RtcpSenderInfo::wire);
    }

    /// Writing the sender information that was read from 20 bytes gives
    /// those bytes.
    pub proof fn lemma_read_then_wire(b: Seq<u8>, at: int)
        requires
            0 <= at,
            at + 20 <= b.len(),
        ensures
            Self::read(b, at).wire() == b.subrange(at, at + 20),
    {
        reveal(RtcpSenderInfo::wire);
        lemma_u64_at_write(b, at);
        lemma_u32_at_write(b, at + 8);
        lemma_u32_at_write(b, at + 12);
        lemma_u32_at_write(b, at + 16);
        assert(Self::read(b, at).wire() =~= b.subrange(at, at + 20));
    }

    /// Where the 20 bytes from position `at` are the wire form of the sender
    /// information, reading there gives it.
    pub proof fn lemma_wire_then_read(&self, b: Seq<u8>, at: int)
        requires
            0 <= at,
            at + 20 <= b.len(),
            b.subrange(at, at + 20) == self.wire(),
        ensures
            Self::read(b, at) == *self,
    {
        reveal(RtcpSenderInfo::wire);
        let w = self.wire();
        assert(b.subrange(at, at + 8) =~= w.subrange(0, 8));
        assert(w.subrange(0, 8) =~= u64_octets(self.ntp_timestamp));
        assert(b.subrange(at + 8, at + 12) =~= w.subrange(8, 12));
        assert(w.subrange(8, 12) =~= u32_octets(self.rtp_timestamp));
        assert(b.subrange(at + 12, at + 16) =~= w.subrange(12, 16));
        assert(w.subrange(12, 16) =~= u32_octets(self.packet_count));
        assert(b.subrange(at + 16, at + 20) =~= w.subrange(16, 20));
        assert(w.subrange(16, 20) =~= u32_octets(self.octet_count));
        lemma_u64_read_at(b, at, self.ntp_timestamp);
        lemma_u32_read_at(b, at + 8, self.rtp_timestamp);
        lemma_u32_read_at(b, at + 12, self.packet_count);
        lemma_u32_read_at(b, at + 16, self.octet_count);
    }

    /// The length of the sender information on the wire, in bytes.
    pub fn get_length(&self) -> (n: u32)
        ensures
            n == 20,
            n == self.wire().len(),
    {
        proof {
            self.lemma_wire_len();
        }
        8 + 4 + 4 + 4
    }

    /// Writes the sender information at the cursor. Fails, with the buffer
    /// possibly written in part, exactly when fewer than 20 bytes are left.
    pub fn to_bytes(&self, out: &mut Octets) -> (r: Result<(), RtcpError>)
        requires
            old(out).wf(),
        ensures
            final(final(out).buf)@ == final(old(out).buf)@,
            match r {
                Ok(_) => {
                    &&& old(out).rest().len() >= 20
                    &&& final(out).wrote(old(out), self.wire())
                },
                Err(e) => {
                    &&& old(out).rest().len() < 20
                    &&& e == short_buffer()
                    &&& final(out).stopped(old(out), self.wire())
                },
            },
    {
        let ghost b0 = out.bytes();
        let ghost p = out.pos();
        proof {
            reveal(RtcpSenderInfo::wire);
        }
        lift(out.put_u64(self.ntp_timestamp))?;
        let ghost w1 = u64_octets(self.ntp_timestamp);
        lift(out.put_u32(self.rtp_timestamp))?;
        let ghost w2 = w1 + u32_octets(self.rtp_timestamp);
        proof {
            lemma_spliced_twice(b0, p, w1, u32_octets(self.rtp_timestamp));
        }
        lift(out.put_u32(self.packet_count))?;
        let ghost w3 = w2 + u32_octets(self.packet_count);
        proof {
            lemma_spliced_twice(b0, p, w2, u32_octets(self.packet_count));
        }
        lift(out.put_u32(self.octet_count))?;
        proof {
            lemma_spliced_twice(b0, p, w3, u32_octets(self.octet_count));
        }
        Ok(())
    }

    /// Reads the sender information at the cursor. Fails exactly when fewer
    /// than 20 bytes are left.
    pub fn from_bytes(bytes: &mut Octets) -> (r: Result<RtcpSenderInfo, RtcpError>)
        requires
            old(bytes).wf(),
        ensures
            final(final(bytes).buf)@ == final(old(bytes).buf)@,
            final(bytes).wf(),
            final(bytes).bytes() == old(bytes).bytes(),
            match r {
                Ok(info) => {
                    &&& old(bytes).rest().len() >= 20
                    &&& info == Self::read(old(bytes).bytes(), old(bytes).pos())
                    &&& final(bytes).pos() == old(bytes).pos() + 20
                },
                Err(e) => {
                    &&& old(bytes).rest().len() < 20
                    &&& e == short_buffer()
                    &&& final(bytes).pos() >= old(bytes).pos()
                },
            },
    {
        let ntp_timestamp = lift(bytes.get_u64())?;
        let rtp_timestamp = lift(bytes.get_u32())?;
        let packet_count = lift(bytes.get_u32())?;
        let octet_count = lift(bytes.get_u32())?;
        Ok(RtcpSenderInfo { ntp_timestamp, rtp_timestamp, packet_count, octet_count })
    }
}

/// A sender report.
#[derive(Debug, Clone, Eq, PartialEq, Hash)]
pub struct RtcpSenderReportPacket {
    pub ssrc: u32,
    pub sender_info: RtcpSenderInfo,
    pub reports: Vec<RtcpReportBlock>,
}

/// What a sender report holds.
pub struct SenderReport {
    pub ssrc: u32,
    pub sender_info: RtcpSenderInfo,
    pub reports: Seq<RtcpReportBlock>,
}

impl SenderReport {
    /// The report's body on the wire: the identifier, the sender
    /// information, then the blocks.
    pub open spec fn wire(self) -> Seq<u8> {
        u32_octets(self.ssrc) + self.sender_info.wire() + blocks_wire(self.reports)
    }

    /// What a body of `count` blocks decodes to. The body must be exactly
    /// the identifier, the sender information and `count` blocks long.
    pub open spec fn parse(b: Seq<u8>, count: u8) -> Result<SenderReport, RtcpError> {
        if b.len() != 24 + 24 * count {
            Err(RtcpError::InvalidPacketHeader)
        } else {
            Ok(
                SenderReport {
                    ssrc: u32_at(b, 0),
                    sender_info: RtcpSenderInfo::read(b, 4),
                    reports: blocks_at(b, 24, count as nat),
                },
            )
        }
    }

    /// The body is 24 bytes and 24 more for each block.
    pub proof fn lemma_wire_len(self)
        ensures
            self.wire().len() == 24 + 24 * self.reports.len(),
    {
        self.sender_info.lemma_wire_len();
        lemma_blocks_wire_len(self.reports);
    }

    /// The wire form of a report decodes to the report, where the packet loss
    /// count of every block fits its three bytes.
    pub proof fn lemma_wire_then_parse(self)
        requires
            self.reports.len() <= 255,
            blocks_fit(self.reports),
        ensures
            Self::parse(self.wire(), self.reports.len() as u8) == Ok::<SenderReport, RtcpError>(
                self,
            ),
    {
        let b = self.wire();
        self.lemma_wire_len();
        self.sender_info.lemma_wire_len();
        lemma_blocks_wire_len(self.reports);
        assert(b.subrange(0, 4) =~= u32_octets(self.ssrc));
        assert(b.subrange(4, 24) =~= self.sender_info.wire());
        assert(b.subrange(24, 24 + 24 * (self.reports.len() as int)) =~= blocks_wire(self.reports));
        lemma_u32_read_at(b, 0, self.ssrc);
        self.sender_info.lemma_wire_then_read(b, 4);
        lemma_blocks_wire_then_read(b, 24, self.reports);
    }

    /// A body that decodes is the wire form of what it decodes to.
    pub proof fn lemma_parse_then_wire(b: Seq<u8>, count: u8)
        requires
            Self::parse(b, count) is Ok,
        ensures
            Self::parse(b, count)->Ok_0.wire() == b,
            Self::parse(b, count)->Ok_0.reports.len() == count,
    {
        lemma_u32_at_write(b, 0);
        RtcpSenderInfo::lemma_read_then_wire(b, 4);
        lemma_blocks_at_then_wire(b, 24, count as nat);
        assert(b.subrange(0, 4) + b.subrange(4, 24) + b.subrange(24, 24 + 24 * count) =~= b);
    }
}

impl View for RtcpSenderReportPacket {
    type V = SenderReport;

    open spec fn view(&self) -> SenderReport {
        SenderReport { ssrc: self.ssrc, sender_info: self.sender_info, reports: self.reports@ }
    }
}

impl RtcpSenderReportPacket {
    /// A sender report of the given sender, sender information and blocks.
    pub fn new(ssrc: u32, sender_info: RtcpSenderInfo, reports: Vec<RtcpReportBlock>) -> (r: Self)
        ensures
            r@ == (SenderReport { ssrc, sender_info, reports: reports@ }),
    {
        RtcpSenderReportPacket { ssrc, sender_info, reports }
    }

    /// The length of the body on the wire, in bytes.
    pub fn get_length(&self) -> (n: u32)
        requires
            24 + 24 * self@.reports.len() <= u32::MAX,
        ensures
            n == self@.wire().len(),
    {
        proof {
            self@.lemma_wire_len();
        }
        4 + self.sender_info.get_length() + self.reports.len() as u32
            * RtcpReportBlock::get_length()
    }

    /// The number of report blocks, for the packet header's count field.
    pub fn get_reports_count(&self) -> (n: u8)
        requires
            self@.reports.len() <= u8::MAX,
        ensures
            n == self@.reports.len(),
    {
        self.reports.len() as u8
    }

    /// Writes the body at the cursor. Fails, with the buffer possibly written
    /// in part, exactly when the body does not fit.
    pub fn to_bytes(&self, out: &mut Octets) -> (r: Result<(), RtcpError>)
        requires
            old(out).wf(),
        ensures
            final(final(out).buf)@ == final(old(out).buf)@,
            match r {
                Ok(_) => {
                    &&& old(out).rest().len() >= self@.wire().len()
                    &&& final(out).wrote(old(out), self@.wire())
                },
                Err(e) => {
                    &&& old(out).rest().len() < self@.wire().len()
                    &&& e == short_buffer()
                    &&& final(out).stopped(old(out), self@.wire())
                },
            },
    {
        let ghost b0 = out.bytes();
        let ghost p = out.pos();
        proof {
            self@.lemma_wire_len();
            self.sender_info.lemma_wire_len();
            lemma_blocks_wire_len(self.reports@);
        }
        lift(out.put_u32(self.ssrc))?;
        self.sender_info.to_bytes(out)?;
        proof {
            lemma_spliced_twice(b0, p, u32_octets(self.ssrc), self.sender_info.wire());
        }
        write_blocks(&self.reports, out)?;
        proof {
            lemma_spliced_twice(
                b0,
                p,
                u32_octets(self.ssrc) + self.sender_info.wire(),
                blocks_wire(self.reports@),
            );
        }
        Ok(())
    }

    /// Reads a body of `count` blocks. What is left in the buffer must be
    /// exactly that long; nothing is read otherwise.
    pub fn from_bytes(bytes: &mut Octets, count: u8) -> (r: Result<
        RtcpSenderReportPacket,
        RtcpError,
    >)
        requires
            old(bytes).wf(),
        ensures
            final(final(bytes).buf)@ == final(old(bytes).buf)@,
            final(bytes).wf(),
            final(bytes).bytes() == old(bytes).bytes(),
            r is Ok <==> old(bytes).rest().len() == 24 + 24 * count,
            match r {
                Ok(p) => {
                    &&& SenderReport::parse(old(bytes).rest(), count) == Ok::<
                        SenderReport,
                        RtcpError,
                    >(p@)
                    &&& final(bytes).pos() == old(bytes).bytes().len()
                },
                Err(e) => {
                    &&& e == RtcpError::InvalidPacketHeader
                    &&& final(bytes).pos() == old(bytes).pos()
                },
            },
    {
        if bytes.cap() != 24 + 24 * (count as usize) {
            return Err(RtcpError::InvalidPacketHeader);
        }
        let ssrc = lift(bytes.get_u32())?;
        let sender_info = RtcpSenderInfo::from_bytes(bytes)?;
        let reports = read_blocks(bytes, count)?;
        proof {
            let b = old(bytes).rest();
            assert(reports@ =~= blocks_at(b, 24, count as nat));
        }
        Ok(RtcpSenderReportPacket { ssrc, sender_info, reports })
    }
}

} // verus!
