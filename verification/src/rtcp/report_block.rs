//! The 24-byte reception report block that sender and receiver reports share.

use crate::octets::{
    lemma_spliced_twice, lemma_u24_at_write, lemma_u24_read_at, lemma_u32_at_write,
    lemma_u32_read_at, spliced, u24_at, u24_octets, u32_at, u32_octets, u8_at, Octets,
};
use crate::rtcp::{lift, short_buffer, RtcpError};
use vstd::prelude::*;

verus! {

/// Reception statistics for one source.
#[derive(Debug, Clone, Eq, PartialEq, Hash)]
pub struct RtcpReportBlock {
    pub ssrc: u32,
    pub fraction_lost: u8,
    pub packets_lost_accumulation: u32,
    pub highest_sequence: u32,
    pub jitter: u32,
    pub last_sender_report_timestamp: u32,
    pub delay: u32,
}

/// How many bytes one report block takes on the wire.
pub open spec fn report_block_len() -> int {
    24
}

/// The wire form of a list of report blocks: one block after the other.
pub open spec fn blocks_wire(blocks: Seq<RtcpReportBlock>) -> Seq<u8>
    decreases blocks.len(),
{
    if blocks.len() == 0 {
        Seq::empty()
    } else {
        blocks_wire(blocks.drop_last()) + blocks.last().wire()
    }
}

/// The `n` report blocks that start at position `at`.
pub open spec fn blocks_at(b: Seq<u8>, at: int, n: nat) -> Seq<RtcpReportBlock> {
    Seq::new(n, |k: int| RtcpReportBlock::read(b, at + 24 * k))
}

/// A list of blocks takes 24 bytes for each block.
pub proof fn lemma_blocks_wire_len(blocks: Seq<RtcpReportBlock>)
    ensures
        blocks_wire(blocks).len() == 24 * blocks.len(),
    decreases blocks.len(),
{
    if blocks.len() > 0 {
        lemma_blocks_wire_len(blocks.drop_last());
        blocks.last().lemma_wire_len();
    }
}

/// The wire form of the first `k` blocks is the start of the wire form of
/// all of them.
pub proof fn lemma_blocks_wire_prefix(blocks: Seq<RtcpReportBlock>, k: int)
    requires
        0 <= k <= blocks.len(),
    ensures
        blocks_wire(blocks.take(k)) == blocks_wire(blocks).take(24 * k),
    decreases blocks.len(),
{
    lemma_blocks_wire_len(blocks);
    if k == blocks.len() {
        assert(blocks.take(k) =~= blocks);
        assert(blocks_wire(blocks).take(24 * k) =~= blocks_wire(blocks));
    } else {
        let front = blocks.drop_last();
        lemma_blocks_wire_prefix(front, k);
        lemma_blocks_wire_len(front);
        assert(blocks.take(k) =~= front.take(k));
        assert(blocks_wire(blocks).take(24 * k) =~= blocks_wire(front).take(24 * k));
    }
}

/// Writing the blocks that were read gives the bytes they were read from.
pub proof fn lemma_blocks_at_then_wire(b: Seq<u8>, at: int, n: nat)
    requires
        0 <= at,
        at + 24 * n <= b.len(),
    ensures
        blocks_wire(blocks_at(b, at, n)) == b.subrange(at, at + 24 * n),
    decreases n,
{
    let blocks = blocks_at(b, at, n);
    if n == 0 {
        assert(blocks_wire(blocks) =~= b.subrange(at, at + 24 * n));
    } else {
        let m = (n - 1) as nat;
        assert(blocks.drop_last() =~= blocks_at(b, at, m));
        lemma_blocks_at_then_wire(b, at, m);
        RtcpReportBlock::lemma_read_then_wire(b, at + 24 * m);
        assert(blocks.last() == RtcpReportBlock::read(b, at + 24 * m));
        assert(b.subrange(at, at + 24 * m) + b.subrange(at + 24 * m, at + 24 * m + 24)
            =~= b.subrange(at, at + 24 * n));
    }
}

/// The packet loss count of every block fits its three bytes.
pub open spec fn blocks_fit(blocks: Seq<RtcpReportBlock>) -> bool {
    forall|i: int| 0 <= i < blocks.len() ==> (#[trigger] blocks[i]).fits()
}

/// In the wire form of a list of blocks, block `k` stands at position
/// `24 * k`.
pub proof fn lemma_blocks_wire_at(blocks: Seq<RtcpReportBlock>, k: int)
    requires
        0 <= k < blocks.len(),
    ensures
        blocks_wire(blocks).len() == 24 * blocks.len(),
        blocks_wire(blocks).subrange(24 * k, 24 * k + 24) == blocks[k].wire(),
{
    lemma_blocks_wire_len(blocks);
    lemma_blocks_wire_prefix(blocks, k);
    lemma_blocks_wire_prefix(blocks, k + 1);
    let next = blocks.take(k + 1);
    assert(next.drop_last() =~= blocks.take(k));
    assert(next.last() == blocks[k]);
    blocks[k].lemma_wire_len();
    let all = blocks_wire(blocks);
    assert(all.take(24 * (k + 1)) == all.take(24 * k) + blocks[k].wire());
    assert(all.subrange(24 * k, 24 * k + 24) =~= all.take(24 * (k + 1)).subrange(
        24 * k,
        24 * k + 24,
    ));
    let joined = all.take(24 * k) + blocks[k].wire();
    assert(joined.subrange(24 * k, 24 * k + 24) =~= blocks[k].wire());
}

/// Where the bytes from position `at` are the wire form of `blocks`, and
/// the packet loss count of each fits its three bytes, reading as many
/// blocks there gives `blocks`.
pub proof fn lemma_blocks_wire_then_read(b: Seq<u8>, at: int, blocks: Seq<RtcpReportBlock>)
    requires
        0 <= at,
        at + 24 * blocks.len() <= b.len(),
        b.subrange(at, at + 24 * blocks.len()) == blocks_wire(blocks),
        blocks_fit(blocks),
    ensures
        blocks_at(b, at, blocks.len()) == blocks,
{
    let all = blocks_wire(blocks);
    assert forall|k: int| 0 <= k < blocks.len() implies RtcpReportBlock::read(b, at + 24 * k)
        == blocks[k] by {
        lemma_blocks_wire_at(blocks, k);
        assert(b.subrange(at + 24 * k, at + 24 * k + 24) =~= all.subrange(24 * k, 24 * k + 24));
        blocks[k].lemma_wire_then_read(b, at + 24 * k);
    }
    assert(blocks_at(b, at, blocks.len()) =~= blocks);
}

/// Writes the blocks one after the other. Fails, with the buffer possibly
/// written in part, exactly when they do not all fit.
pub fn write_blocks(blocks: &Vec<RtcpReportBlock>, out: &mut Octets) -> (r: Result<(), RtcpError>)
    requires
        old(out).wf(),
    ensures
        final(final(out).buf)@ == final(old(out).buf)@,
        match r {
            Ok(_) => {
                &&& old(out).rest().len() >= 24 * blocks@.len()
                &&& final(out).wrote(old(out), blocks_wire(blocks@))
            },
            Err(e) => {
                &&& old(out).rest().len() < 24 * blocks@.len()
                &&& e == short_buffer()
                &&& final(out).stopped(old(out), blocks_wire(blocks@))
            },
        },
{
    let ghost b0 = out.bytes();
    let ghost p = out.pos();
    let mut i: usize = 0;
    assert(spliced(b0, p, blocks_wire(blocks@.take(0))) =~= b0);
    proof {
        lemma_blocks_wire_len(blocks@);
    }
    while i < blocks.len()
        invariant
            i <= blocks@.len(),
            blocks_wire(blocks@).len() == 24 * blocks@.len(),
            b0 == old(out).bytes(),
            p == old(out).pos(),
            old(out).wf(),
            out.wrote(old(out), blocks_wire(blocks@.take(i as int))),
            blocks_wire(blocks@.take(i as int)).len() == 24 * i,
            final(out.buf)@ == final(old(out).buf)@,
        decreases blocks@.len() - i,
    {
        let ghost done = blocks_wire(blocks@.take(i as int));
        let ghost piece = blocks@[i as int].wire();
        proof {
            blocks@[i as int].lemma_wire_len();
            lemma_blocks_wire_prefix(blocks@, i as int);
            lemma_blocks_wire_prefix(blocks@, i + 1);
            let next = blocks@.take(i + 1);
            assert(next.drop_last() =~= blocks@.take(i as int));
            assert(next.last() == blocks@[i as int]);
            assert(blocks_wire(next) == done + piece);
            assert forall|x: int| 24 * i <= x < 24 * (i + 1) implies blocks_wire(blocks@)[x]
                == piece[x - 24 * i] by {
                assert(blocks_wire(blocks@).take(24 * (i + 1))[x] == (done + piece)[x]);
            }
        }
        blocks[i].to_bytes(out)?;
        proof {
            let next = blocks@.take(i + 1);
            assert(next.drop_last() =~= blocks@.take(i as int));
            assert(next.last() == blocks@[i as int]);
            assert(blocks_wire(next) == done + piece);
            lemma_spliced_twice(b0, p, done, piece);
        }
        i = i + 1;
    }
    assert(blocks@.take(i as int) =~= blocks@);
    Ok(())
}

/// Reads `count` blocks one after the other. Fails exactly when fewer than
/// `24 * count` bytes are left.
pub fn read_blocks(bytes: &mut Octets, count: u8) -> (r: Result<Vec<RtcpReportBlock>, RtcpError>)
    requires
        old(bytes).wf(),
    ensures
        final(final(bytes).buf)@ == final(old(bytes).buf)@,
        final(bytes).wf(),
        final(bytes).bytes() == old(bytes).bytes(),
        match r {
            Ok(blocks) => {
                &&& old(bytes).rest().len() >= 24 * count
                &&& blocks@ == blocks_at(old(bytes).bytes(), old(bytes).pos(), count as nat)
                &&& final(bytes).pos() == old(bytes).pos() + 24 * count
            },
            Err(e) => {
                &&& old(bytes).rest().len() < 24 * count
                &&& e == short_buffer()
                &&& final(bytes).pos() >= old(bytes).pos()
            },
        },
{
    let mut blocks: Vec<RtcpReportBlock> = Vec::new();
    let mut i: u8 = 0;
    while i < count
        invariant
            i <= count,
            bytes.advanced(old(bytes), 24 * i),
            blocks@ == blocks_at(old(bytes).bytes(), old(bytes).pos(), i as nat),
            final(bytes.buf)@ == final(old(bytes).buf)@,
        decreases count - i,
    {
        let block = RtcpReportBlock::from_bytes(bytes)?;
        blocks.push(block);
        i = i + 1;
        assert(blocks@ =~= blocks_at(old(bytes).bytes(), old(bytes).pos(), i as nat));
    }
    Ok(blocks)
}

impl RtcpReportBlock {
    /// The block's 24 bytes on the wire. The packet loss count has three
    /// bytes, so only its low 24 bits are written.
    #[verifier::opaque]
    pub open spec fn wire(&self) -> Seq<u8> {
        u32_octets(self.ssrc) + seq![self.fraction_lost] + u24_octets(
            self.packets_lost_accumulation,
        ) + u32_octets(self.highest_sequence) + u32_octets(self.jitter) + u32_octets(
            self.last_sender_report_timestamp,
        ) + u32_octets(self.delay)
    }

    /// The block that the 24 bytes from position `at` stand for.
    pub open spec fn read(b: Seq<u8>, at: int) -> RtcpReportBlock {
        RtcpReportBlock {
            ssrc: u32_at(b, at),
            fraction_lost: u8_at(b, at + 4),
            packets_lost_accumulation: u24_at(b, at + 5),
            highest_sequence: u32_at(b, at + 8),
            jitter: u32_at(b, at + 12),
            last_sender_report_timestamp: u32_at(b, at + 16),
            delay: u32_at(b, at + 20),
        }
    }

    /// The packet loss count fits its three bytes.
    pub open spec fn fits(&self) -> bool {
        self.packets_lost_accumulation < 0x100_0000
    }

    /// Where the 24 bytes from position `at` are the wire form of a block
    /// whose packet loss count fits its three bytes, reading there gives
    /// the block.
    pub proof fn lemma_wire_then_read(&self, b: Seq<u8>, at: int)
        requires
            0 <= at,
            at + 24 <= b.len(),
            b.subrange(at, at + 24) == self.wire(),
            self.fits(),
        ensures
            Self::read(b, at) == *self,
    {
        reveal(RtcpReportBlock::wire);
        let w = self.wire();
        assert(b.subrange(at, at + 4) =~= w.subrange(0, 4));
        assert(w.subrange(0, 4) =~= u32_octets(self.ssrc));
        assert(b[at + 4] == w[4]);
        assert(b.subrange(at + 5, at + 8) =~= w.subrange(5, 8));
        assert(w.subrange(5, 8) =~= u24_octets(self.packets_lost_accumulation));
        assert(b.subrange(at + 8, at + 12) =~= w.subrange(8, 12));
        assert(w.subrange(8, 12) =~= u32_octets(self.highest_sequence));
        assert(b.subrange(at + 12, at + 16) =~= w.subrange(12, 16));
        assert(w.subrange(12, 16) =~= u32_octets(self.jitter));
        assert(b.subrange(at + 16, at + 20) =~= w.subrange(16, 20));
        assert(w.subrange(16, 20) =~= u32_octets(self.last_sender_report_timestamp));
        assert(b.subrange(at + 20, at + 24) =~= w.subrange(20, 24));
        assert(w.subrange(20, 24) =~= u32_octets(self.delay));
        lemma_u32_read_at(b, at, self.ssrc);
        lemma_u24_read_at(b, at + 5, self.packets_lost_accumulation);
        lemma_u32_read_at(b, at + 8, self.highest_sequence);
        lemma_u32_read_at(b, at + 12, self.jitter);
        lemma_u32_read_at(b, at + 16, self.last_sender_report_timestamp);
        lemma_u32_read_at(b, at + 20, self.delay);
    }

    /// A block is 24 bytes long.
    pub proof fn lemma_wire_len(&self)
        ensures
            self.wire().len() == report_block_len(),
    {
        reveal(RtcpReportBlock::wire);
    }

    /// Writing the block that was read from 24 bytes gives those bytes.
    pub proof fn lemma_read_then_wire(b: Seq<u8>, at: int)
        requires
            0 <= at,
            at + 24 <= b.len(),
        ensures
            Self::read(b, at).wire() == b.subrange(at, at + 24),
    {
        reveal(RtcpReportBlock::wire);
        lemma_u32_at_write(b, at);
        lemma_u24_at_write(b, at + 5);
        lemma_u32_at_write(b, at + 8);
        lemma_u32_at_write(b, at + 12);
        lemma_u32_at_write(b, at + 16);
        lemma_u32_at_write(b, at + 20);
        assert(Self::read(b, at).wire() =~= b.subrange(at, at + 24));
    }

    /// A report block of the given fields.
    pub fn new(
        ssrc: u32,
        fraction_lost: u8,
        packets_lost_accumulation: u32,
        highest_sequence: u32,
        jitter: u32,
        last_sender_report_timestamp: u32,
        delay: u32,
    ) -> (r: RtcpReportBlock)
        ensures
            r == (RtcpReportBlock {
                ssrc,
                fraction_lost,
                packets_lost_accumulation,
                highest_sequence,
                jitter,
                last_sender_report_timestamp,
                delay,
            }),
    {
        RtcpReportBlock {
            ssrc,
            fraction_lost,
            packets_lost_accumulation,
            highest_sequence,
            jitter,
            last_sender_report_timestamp,
            delay,
        }
    }

    /// The length of a block on the wire, in bytes.
    pub fn get_length() -> (n: u32)
        ensures
            n == report_block_len(),
    {
        4 + 1 + 3 + 4 + 4 + 4 + 4
    }

    /// Writes the block at the cursor. Fails, with the buffer possibly
    /// written in part, exactly when fewer than 24 bytes are left.
    pub fn to_bytes(&self, out: &mut Octets) -> (r: Result<(), RtcpError>)
        requires
            old(out).wf(),
        ensures
            final(final(out).buf)@ == final(old(out).buf)@,
            match r {
                Ok(_) => {
                    &&& old(out).rest().len() >= 24
                    &&& final(out).wrote(old(out), self.wire())
                },
                Err(e) => {
                    &&& old(out).rest().len() < 24
                    &&& e == short_buffer()
                    &&& final(out).stopped(old(out), self.wire())
                },
            },
    {
        let ghost b0 = out.bytes();
        let ghost p = out.pos();
        proof {
            reveal(RtcpReportBlock::wire);
        }
        lift(out.put_u32(self.ssrc))?;
        let ghost w1 = u32_octets(self.ssrc);
        lift(out.put_u8(self.fraction_lost))?;
        let ghost w2 = w1 + seq![self.fraction_lost];
        proof {
            lemma_spliced_twice(b0, p, w1, seq![self.fraction_lost]);
        }
        lift(out.put_u24(self.packets_lost_accumulation))?;
        let ghost w3 = w2 + u24_octets(self.packets_lost_accumulation);
        proof {
            lemma_spliced_twice(b0, p, w2, u24_octets(self.packets_lost_accumulation));
        }
        lift(out.put_u32(self.highest_sequence))?;
        let ghost w4 = w3 + u32_octets(self.highest_sequence);
        proof {
            lemma_spliced_twice(b0, p, w3, u32_octets(self.highest_sequence));
        }
        lift(out.put_u32(self.jitter))?;
        let ghost w5 = w4 + u32_octets(self.jitter);
        proof {
            lemma_spliced_twice(b0, p, w4, u32_octets(self.jitter));
        }
        lift(out.put_u32(self.last_sender_report_timestamp))?;
        let ghost w6 = w5 + u32_octets(self.last_sender_report_timestamp);
        proof {
            lemma_spliced_twice(b0, p, w5, u32_octets(self.last_sender_report_timestamp));
        }
        lift(out.put_u32(self.delay))?;
        proof {
            lemma_spliced_twice(b0, p, w6, u32_octets(self.delay));
        }
        Ok(())
    }

    /// Reads one block at the cursor. Fails exactly when fewer than 24 bytes
    /// are left.
    pub fn from_bytes(bytes: &mut Octets) -> (r: Result<RtcpReportBlock, RtcpError>)
        requires
            old(bytes).wf(),
        ensures
            final(final(bytes).buf)@ == final(old(bytes).buf)@,
            final(bytes).wf(),
            final(bytes).bytes() == old(bytes).bytes(),
            match r {
                Ok(block) => {
                    &&& old(bytes).rest().len() >= 24
                    &&& block == Self::read(old(bytes).bytes(), old(bytes).pos())
                    &&& final(bytes).pos() == old(bytes).pos() + 24
                },
                Err(e) => {
                    &&& old(bytes).rest().len() < 24
                    &&& e == short_buffer()
                    &&& final(bytes).pos() >= old(bytes).pos()
                },
            },
    {
        let ssrc = lift(bytes.get_u32())?;
        let fraction_lost = lift(bytes.get_u8())?;
        let packets_lost_accumulation = lift(bytes.get_u24())?;
        let highest_sequence = lift(bytes.get_u32())?;
        let jitter = lift(bytes.get_u32())?;
        let last_sender_report_timestamp = lift(bytes.get_u32())?;
        let delay = lift(bytes.get_u32())?;
        Ok(
            RtcpReportBlock {
                ssrc,
                fraction_lost,
                packets_lost_accumulation,
                highest_sequence,
                jitter,
                last_sender_report_timestamp,
                delay,
            },
        )
    }
}

} // verus!
