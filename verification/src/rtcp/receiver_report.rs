//! Receiver reports: the sender's identifier and a list of report blocks.

use crate::octets::{
    lemma_spliced_twice, lemma_u32_at_write, lemma_u32_read_at, u32_at, u32_octets, Octets,
};
use crate::rtcp::report_block::{
    blocks_at, blocks_fit, blocks_wire, lemma_blocks_at_then_wire, lemma_blocks_wire_len,
    lemma_blocks_wire_then_read, read_blocks, write_blocks, RtcpReportBlock,
};
use crate::rtcp::{lift, short_buffer, RtcpError};
use vstd::prelude::*;

verus! {

/// A receiver report.
#[derive(Debug, Clone, Eq, PartialEq, Hash)]
pub struct RtcpReceiverReportPacket {
    pub ssrc: u32,
    pub reports: Vec<RtcpReportBlock>,
}

/// What a receiver report holds.
pub struct ReceiverReport {
    pub ssrc: u32,
    pub reports: Seq<RtcpReportBlock>,
}

impl ReceiverReport {
    /// The report's body on the wire: the identifier, then the blocks.
    pub open spec fn wire(self) -> Seq<u8> {
        u32_octets(self.ssrc) + blocks_wire(self.reports)
    }

    /// What a body of `count` blocks decodes to. The body must be exactly
    /// the identifier and `count` blocks long.
    pub open spec fn parse(b: Seq<u8>, count: u8) -> Result<ReceiverReport, RtcpError> {
        if b.len() != 4 + 24 * count {
            Err(RtcpError::InvalidRrPacketLength)
        } else {
            Ok(ReceiverReport { ssrc: u32_at(b, 0), reports: blocks_at(b, 4, count as nat) })
        }
    }

    /// The body is four bytes and 24 more for each block.
    pub proof fn lemma_wire_len(self)
        ensures
            self.wire().len() == 4 + 24 * self.reports.len(),
    {
        lemma_blocks_wire_len(self.reports);
    }

    /// The wire form of a report decodes to the report, where the packet loss
    /// count of every block fits its three bytes.
    pub proof fn lemma_wire_then_parse(self)
        requires
            self.reports.len() <= 255,
            blocks_fit(self.reports),
        ensures
            Self::parse(self.wire(), self.reports.len() as u8) == Ok::<ReceiverReport, RtcpError>(
                self,
            ),
    {
        let b = self.wire();
        self.lemma_wire_len();
        lemma_blocks_wire_len(self.reports);
        assert(b.subrange(0, 4) =~= u32_octets(self.ssrc));
        assert(b.subrange(4, 4 + 24 * (self.reports.len() as int)) =~= blocks_wire(self.reports));
        lemma_u32_read_at(b, 0, self.ssrc);
        lemma_blocks_wire_then_read(b, 4, self.reports);
    }

    /// A body that decodes is the wire form of what it decodes to.
    pub proof fn lemma_parse_then_wire(b: Seq<u8>, count: u8)
        requires
            Self::parse(b, count) is Ok,
        ensures
            Self::parse(b, count)->Ok_0.wire() == b,
            Self::parse(b, count)->Ok_0.reports.len() == count,
    {
        lemma_u32_at_write(b, 0);
        lemma_blocks_at_then_wire(b, 4, count as nat);
        assert(b.subrange(0, 4) + b.subrange(4, 4 + 24 * count) =~= b);
    }
}

impl View for RtcpReceiverReportPacket {
    type V = ReceiverReport;

    open spec fn view(&self) -> ReceiverReport {
        ReceiverReport { ssrc: self.ssrc, reports: self.reports@ }
    }
}

impl RtcpReceiverReportPacket {
    /// A receiver report of the given sender and blocks.
    pub fn new(ssrc: u32, reports: Vec<RtcpReportBlock>) -> (r: Self)
        ensures
            r@ == (ReceiverReport { ssrc, reports: reports@ }),
    {
        RtcpReceiverReportPacket { ssrc, reports }
    }

    /// The length of the body on the wire, in bytes.
    pub fn get_length(&self) -> (n: u32)
        requires
            4 + 24 * self@.reports.len() <= u32::MAX,
        ensures
            n == self@.wire().len(),
    {
        proof {
            self@.lemma_wire_len();
        }
        4 + self.reports.len() as u32 * RtcpReportBlock::get_length()
    }

    /// The number of report blocks, for the packet header's count field.
    pub fn get_reports_count(&self) -> (n: u8)
        requires
            self@.reports.len() <= u8::MAX,
        ensures
            n == self@.reports.len(),
    {
        self.reports.len() as u8
    }

    /// Writes the body at the cursor. Fails, with the buffer possibly written
    /// in part, exactly when the body does not fit.
    pub fn to_bytes(&self, out: &mut Octets) -> (r: Result<(), RtcpError>)
        requires
            old(out).wf(),
        ensures
            final(final(out).buf)@ == final(old(out).buf)@,
            match r {
                Ok(_) => {
                    &&& old(out).rest().len() >= self@.wire().len()
                    &&& final(out).wrote(old(out), self@.wire())
                },
                Err(e) => {
                    &&& old(out).rest().len() < self@.wire().len()
                    &&& e == short_buffer()
                    &&& final(out).stopped(old(out), self@.wire())
                },
            },
    {
        proof {
            self@.lemma_wire_len();
        }
        lift(out.put_u32(self.ssrc))?;
        write_blocks(&self.reports, out)?;
        proof {
            lemma_blocks_wire_len(self.reports@);
            lemma_spliced_twice(
                old(out).bytes(),
                old(out).pos(),
                u32_octets(self.ssrc),
                blocks_wire(self.reports@),
            );
        }
        Ok(())
    }

    /// Reads a body of `count` blocks. What is left in the buffer must be
    /// exactly that long; nothing is read otherwise.
    pub fn from_bytes(bytes: &mut Octets, count: u8) -> (r: Result<
        RtcpReceiverReportPacket,
        RtcpError,
    >)
        requires
            old(bytes).wf(),
        ensures
            final(final(bytes).buf)@ == final(old(bytes).buf)@,
            final(bytes).wf(),
            final(bytes).bytes() == old(bytes).bytes(),
            r is Ok <==> old(bytes).rest().len() == 4 + 24 * count,
            match r {
                Ok(p) => {
                    &&& ReceiverReport::parse(old(bytes).rest(), count) == Ok::<
                        ReceiverReport,
                        RtcpError,
                    >(p@)
                    &&& final(bytes).pos() == old(bytes).bytes().len()
                },
                Err(e) => {
                    &&& e == RtcpError::InvalidRrPacketLength
                    &&& final(bytes).pos() == old(bytes).pos()
                },
            },
    {
        if bytes.cap() != 4 + 24 * (count as usize) {
            return Err(RtcpError::InvalidRrPacketLength);
        }
        let ssrc = lift(bytes.get_u32())?;
        let reports = read_blocks(bytes, count)?;
        proof {
            let b = old(bytes).rest();
            assert(reports@ =~= blocks_at(b, 4, count as nat));
        }
        Ok(RtcpReceiverReportPacket { ssrc, reports })
    }
}

} // verus!
