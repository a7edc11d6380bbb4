//! The RTP packet: its header with contributing sources and an optional
//! header extension, its payload, and its padding.

use crate::octets::{
    lemma_spliced_twice, lemma_u32s_octets_len, read_u32s, u16_at, u16_octets, u32_at,
    u32_octets, u32s_at, u32s_octets, write_u32s, zeros, Octets,
};
use crate::rtp::{lift, short_buffer, RtpError};
use vstd::prelude::*;

verus! {

/// The profile of header extensions whose entries have a one-byte header.
pub const ONE_BYTE_PROFILE: u16 = 0xBEDE;

/// The profile of header extensions whose entries have a two-byte header.
pub const TWO_BYTE_PROFILE: u16 = 0x1000;

/// What a list of extension entries holds: for each its identifier and its
/// text.
pub open spec fn entries_view(entries: Seq<(u8, Vec<u8>)>) -> Seq<(u8, Seq<u8>)> {
    Seq::new(entries.len(), |i: int| (entries[i].0, entries[i].1@))
}

/// The result of reading entries, with `front` put before what was read.
pub open spec fn after_entries(
    front: Seq<(u8, Seq<u8>)>,
    r: Result<Seq<(u8, Seq<u8>)>, RtpError>,
) -> Result<Seq<(u8, Seq<u8>)>, RtpError> {
    match r {
        Ok(list) => Ok(front + list),
        Err(e) => Err(e),
    }
}

/// The entries of a header extension's payload from position `at` to its
/// end. A zero byte where an entry would start is padding and is skipped.
/// Under the one-byte profile an entry starts with one byte that holds the
/// identifier in its top four bits and the length less one in its low four;
/// under the two-byte profile it starts with the identifier and then the
/// length, a byte each.
pub open spec fn parse_entries(b: Seq<u8>, at: int, profile: u16) -> Result<
    Seq<(u8, Seq<u8>)>,
    RtpError,
>
    decreases b.len() - at,
{
    if at < 0 || at >= b.len() {
        Ok(Seq::empty())
    } else if b[at] == 0 {
        parse_entries(b, at + 1, profile)
    } else if profile == ONE_BYTE_PROFILE {
        let id = (b[at] / 16) as u8;
        let len = b[at] % 16 + 1;
        if b.len() - (at + 1) < len {
            Err(RtpError::TruncatedHeaderExtensionValue)
        } else {
            after_entries(
                seq![(id, b.subrange(at + 1, at + 1 + len))],
                parse_entries(b, at + 1 + len, profile),
            )
        }
    } else if at + 1 >= b.len() {
        Err(RtpError::TruncatedTwoByteHeaderExtension)
    } else {
        let len = b[at + 1] as int;
        if b.len() - (at + 2) < len {
            Err(RtpError::TruncatedHeaderExtensionValue)
        } else {
            after_entries(
                seq![(b[at], b.subrange(at + 2, at + 2 + len))],
                parse_entries(b, at + 2 + len, profile),
            )
        }
    }
}

/// The entries of a header extension's payload under `profile`, which must
/// be the one-byte or the two-byte profile.
pub open spec fn unpack_entries(b: Seq<u8>, at: int, profile: u16) -> Result<
    Seq<(u8, Seq<u8>)>,
    RtpError,
> {
    if profile != ONE_BYTE_PROFILE && profile != TWO_BYTE_PROFILE {
        Err(RtpError::InvalidHeaderExtensionProfile)
    } else {
        parse_entries(b, at, profile)
    }
}

/// Reads the entries of a header extension from a cursor that holds the
/// extension's payload, up to the end of the buffer.
pub fn unpack_header_extension(bytes: &mut Octets, profile: u16) -> (r: Result<
    Vec<(u8, Vec<u8>)>,
    RtpError,
>)
    requires
        old(bytes).wf(),
    ensures
        final(final(bytes).buf)@ == final(old(bytes).buf)@,
        final(bytes).wf(),
        final(bytes).bytes() == old(bytes).bytes(),
        final(bytes).pos() >= old(bytes).pos(),
        match r {
            Ok(entries) => {
                &&& unpack_entries(old(bytes).bytes(), old(bytes).pos(), profile) == Ok::<
                    Seq<(u8, Seq<u8>)>,
                    RtpError,
                >(entries_view(entries@))
                &&& final(bytes).pos() == old(bytes).bytes().len()
            },
            Err(e) => unpack_entries(old(bytes).bytes(), old(bytes).pos(), profile) == Err::<
                Seq<(u8, Seq<u8>)>,
                RtpError,
            >(e),
        },
{
    if profile != ONE_BYTE_PROFILE && profile != TWO_BYTE_PROFILE {
        return Err(RtpError::InvalidHeaderExtensionProfile);
    }
    let ghost b = bytes.bytes();
    let ghost start = bytes.pos();
    let mut extensions: Vec<(u8, Vec<u8>)> = Vec::new();
    proof {
        assert(entries_view(extensions@) =~= Seq::empty());
        match parse_entries(b, start, profile) {
            Ok(list) => {
                assert(entries_view(extensions@) + list =~= list);
            },
            Err(_) => {},
        }
    }
    while bytes.cap() > 0
        invariant
            b == old(bytes).bytes(),
            start == old(bytes).pos(),
            start <= bytes.pos(),
            profile == ONE_BYTE_PROFILE || profile == TWO_BYTE_PROFILE,
            bytes.wf(),
            bytes.bytes() == b,
            after_entries(entries_view(extensions@), parse_entries(b, bytes.pos(), profile))
                == parse_entries(b, start, profile),
            final(bytes.buf)@ == final(old(bytes).buf)@,
        decreases b.len() - bytes.pos(),
    {
        let ghost at = bytes.pos();
        let octet = lift(bytes.get_u8())?;
        if octet == 0x00 {
            continue ;
        }
        let (id, length) = if profile == ONE_BYTE_PROFILE {
            assert((octet & 0xf0) >> 4 == octet / 16) by (bit_vector);
            assert((octet & 0x0f) + 1 == octet % 16 + 1) by (bit_vector);
            ((octet & 0xf0) >> 4, (octet & 0x0f) + 1)
        } else {
            let length = match bytes.get_u8() {
                Ok(v) => v,
                Err(_) => {
                    return Err(RtpError::TruncatedTwoByteHeaderExtension);
                },
            };
            (octet, length)
        };
        if bytes.cap() < length as usize {
            return Err(RtpError::TruncatedHeaderExtensionValue);
        }
        let ghost from = bytes.pos();
        let region = lift(bytes.get_bytes(length as usize))?;
        let payload = region.to_vec();
        proof {
            assert(payload@ =~= b.subrange(from, from + length));
            assert(bytes.bytes() =~= b);
        }
        let ghost before = entries_view(extensions@);
        extensions.push((id, payload));
        proof {
            assert(entries_view(extensions@) =~= before + seq![(id, payload@)]);
            match parse_entries(b, from + length, profile) {
                Ok(list) => {
                    assert(before + (seq![(id, payload@)] + list) =~= entries_view(extensions@)
                        + list);
                },
                Err(_) => {},
            }
        }
    }
    proof {
        assert(entries_view(extensions@) + Seq::<(u8, Seq<u8>)>::empty() =~= entries_view(
            extensions@,
        ));
    }
    Ok(extensions)
}

/// An RTP header extension: the profile that says how to read it, and its
/// payload in 32-bit words.
#[derive(Debug, Clone, Eq, PartialEq, Hash)]
pub struct RtpHeaderExtension {
    pub profile: u16,
    pub payload: Vec<u32>,
}

/// What a header extension holds.
pub struct HeaderExtension {
    pub profile: u16,
    pub payload: Seq<u32>,
}

impl View for RtpHeaderExtension {
    type V = HeaderExtension;

    open spec fn view(&self) -> HeaderExtension {
        HeaderExtension { profile: self.profile, payload: self.payload@ }
    }
}

impl HeaderExtension {
    /// The extension on the wire: the profile, the number of payload words
    /// in sixteen bits, and the words.
    pub open spec fn wire(self) -> Seq<u8> {
        u16_octets(self.profile) + u16_octets(self.payload.len() as u16) + u32s_octets(
            self.payload,
        )
    }

    /// The extension at the start of `b`, and how many bytes it takes.
    pub open spec fn parse(b: Seq<u8>) -> Result<(HeaderExtension, int), RtpError> {
        if b.len() < 4 || b.len() < 4 + 4 * u16_at(b, 2) {
            Err(short_buffer())
        } else {
            Ok(
                (
                    HeaderExtension {
                        profile: u16_at(b, 0),
                        payload: u32s_at(b, 4, u16_at(b, 2) as nat),
                    },
                    4 + 4 * u16_at(b, 2),
                ),
            )
        }
    }

    /// The extension is four bytes and four more for each payload word.
    pub proof fn lemma_wire_len(self)
        ensures
            self.wire().len() == 4 + 4 * self.payload.len(),
    {
        lemma_u32s_octets_len(self.payload);
    }
}

impl RtpHeaderExtension {
    /// An extension of the given profile and payload words.
    pub fn new(profile: u16, payload: Vec<u32>) -> (r: Self)
        ensures
            r@ == (HeaderExtension { profile, payload: payload@ }),
    {
        RtpHeaderExtension { profile, payload }
    }

    /// Writes the extension at the cursor. Fails, with the buffer possibly
    /// written in part, exactly when it does not fit.
    pub fn to_bytes(&self, out: &mut Octets) -> (r: Result<(), RtpError>)
        requires
            old(out).wf(),
            self@.payload.len() <= 0xFFFF,
        ensures
            final(final(out).buf)@ == final(old(out).buf)@,
            match r {
                Ok(_) => {
                    &&& old(out).rest().len() >= self@.wire().len()
                    &&& final(out).wrote(old(out), self@.wire())
                },
                Err(e) => {
                    &&& old(out).rest().len() < self@.wire().len()
                    &&& e == short_buffer()
                    &&& final(out).stopped(old(out), self@.wire())
                },
            },
    {
        let ghost b0 = out.bytes();
        let ghost p = out.pos();
        proof {
            self@.lemma_wire_len();
        }
        lift(out.put_u16(self.profile))?;
        lift(out.put_u16(self.payload.len() as u16))?;
        let ghost head = u16_octets(self.profile) + u16_octets(self.payload.len() as u16);
        proof {
            lemma_spliced_twice(
                b0,
                p,
                u16_octets(self.profile),
                u16_octets(self.payload.len() as u16),
            );
        }
        lift(write_u32s(&self.payload, out))?;
        proof {
            lemma_spliced_twice(b0, p, head, u32s_octets(self.payload@));
        }
        Ok(())
    }

    /// Reads an extension at the cursor: the profile, the number of payload
    /// words, and that many words. Fails exactly when the buffer ends before
    /// the extension does.
    pub fn from_bytes(bytes: &mut Octets) -> (r: Result<RtpHeaderExtension, RtpError>)
        requires
            old(bytes).wf(),
        ensures
            final(final(bytes).buf)@ == final(old(bytes).buf)@,
            final(bytes).wf(),
            final(bytes).bytes() == old(bytes).bytes(),
            final(bytes).pos() >= old(bytes).pos(),
            match r {
                Ok(ext) => HeaderExtension::parse(old(bytes).rest()) == Ok::<
                    (HeaderExtension, int),
                    RtpError,
                >((ext@, final(bytes).pos() - old(bytes).pos())),
                Err(e) => HeaderExtension::parse(old(bytes).rest()) == Err::<
                    (HeaderExtension, int),
                    RtpError,
                >(e),
            },
    {
        let ghost b = bytes.rest();
        let profile = lift(bytes.get_u16())?;
        let length = lift(bytes.get_u16())?;
        let payload = lift(read_u32s(bytes, length as usize))?;
        proof {
            assert(payload@ =~= u32s_at(b, 4, length as nat));
        }
        Ok(RtpHeaderExtension { profile, payload })
    }
}

/// An RTP header.
#[derive(Debug, Clone, Eq, PartialEq, Hash)]
pub struct RtpHeader {
    pub version: u8,
    pub padding: Option<u8>,
    pub extension: Option<RtpHeaderExtension>,
    pub marker: bool,
    pub payload_type: u8,
    pub sequence_number: u16,
    pub timestamp: u32,
    pub ssrc: u32,
    pub csrc: Vec<u32>,
}

/// What an RTP header holds. `padding` is the number of padding bytes at the
/// end of the packet, where the packet has any.
pub struct Header {
    pub version: u8,
    pub padding: Option<u8>,
    pub extension: Option<HeaderExtension>,
    pub marker: bool,
    pub payload_type: u8,
    pub sequence_number: u16,
    pub timestamp: u32,
    pub ssrc: u32,
    pub csrc: Seq<u32>,
}

impl View for RtpHeader {
    type V = Header;

    open spec fn view(&self) -> Header {
        Header {
            version: self.version,
            padding: self.padding,
            extension: match self.extension {
                Some(ext) => Some(ext@),
                None => None,
            },
            marker: self.marker,
            payload_type: self.payload_type,
            sequence_number: self.sequence_number,
            timestamp: self.timestamp,
            ssrc: self.ssrc,
            csrc: self.csrc@,
        }
    }
}

/// The version that the first byte of a header gives: its top two bits.
pub open spec fn first_version(first: u8) -> u8 {
    (first / 64) as u8
}

/// Whether the first byte of a header has its padding bit set.
pub open spec fn first_padding(first: u8) -> bool {
    (first as int / 32) % 2 == 1
}

/// Whether the first byte of a header has its extension bit set.
pub open spec fn first_extension(first: u8) -> bool {
    (first as int / 16) % 2 == 1
}

/// The number of contributing sources that the first byte of a header
/// gives: its low four bits.
pub open spec fn first_csrc_count(first: u8) -> u8 {
    (first % 16) as u8
}

impl Header {
    /// The header can be written: the version fits two bits, the payload
    /// type seven, the number of contributing sources four, and the number
    /// of extension words sixteen.
    pub open spec fn encodable(self) -> bool {
        &&& self.version <= 3
        &&& self.payload_type <= 127
        &&& self.csrc.len() <= 15
        &&& self.extension matches Some(ext) ==> ext.payload.len() <= 0xFFFF
    }

    /// The first byte: version, padding bit, extension bit, and the number
    /// of contributing sources.
    #[verifier::opaque]
    pub open spec fn first(self) -> u8 {
        (self.version * 64 + (if self.padding is Some {
            32int
        } else {
            0int
        }) + (if self.extension is Some {
            16int
        } else {
            0int
        }) + self.csrc.len()) as u8
    }

    /// The second byte: marker bit and payload type.
    #[verifier::opaque]
    pub open spec fn second(self) -> u8 {
        ((if self.marker {
            128int
        } else {
            0int
        }) + self.payload_type) as u8
    }

    /// The twelve bytes that every header starts with.
    pub open spec fn start(self) -> Seq<u8> {
        start_octets(
            self.first(),
            self.second(),
            self.sequence_number,
            self.timestamp,
            self.ssrc,
        )
    }

    /// The header up to and with the contributing sources.
    pub open spec fn fixed(self) -> Seq<u8> {
        self.start() + u32s_octets(self.csrc)
    }

    /// The header on the wire: the fixed part, then the extension where
    /// there is one.
    pub open spec fn wire(self) -> Seq<u8> {
        match self.extension {
            Some(ext) => self.fixed() + ext.wire(),
            None => self.fixed(),
        }
    }

    /// The fixed part is twelve bytes and four more for each contributing
    /// source.
    pub proof fn lemma_fixed_len(self)
        ensures
            self.fixed().len() == 12 + 4 * self.csrc.len(),
    {
        lemma_u32s_octets_len(self.csrc);
    }

    /// The header at the start of `b`, and how many bytes it takes. The
    /// checks come in this order: sixteen bytes are there; the version is 2;
    /// the contributing sources are there; the extension, where the header
    /// announces one, is all there. Where the padding bit is set, the last
    /// byte of `b` is the number of padding bytes.
    pub open spec fn parse(b: Seq<u8>) -> Result<(Header, int), RtpError> {
        if b.len() < 16 {
            Err(RtpError::PacketHeaderTooShort)
        } else if first_version(b[0]) != 2 {
            Err(RtpError::InvalidPacketVersion)
        } else if b.len() - 12 < 4 * first_csrc_count(b[0]) {
            Err(RtpError::PacketHeaderTooShort)
        } else {
            let count = first_csrc_count(b[0]);
            let header = Header {
                version: 2,
                padding: if first_padding(b[0]) {
                    Some(b.last())
                } else {
                    None
                },
                extension: None,
                marker: b[1] >= 128,
                payload_type: (b[1] % 128) as u8,
                sequence_number: u16_at(b, 2),
                timestamp: u32_at(b, 4),
                ssrc: u32_at(b, 8),
                csrc: u32s_at(b, 12, count as nat),
            };
            if !first_extension(b[0]) {
                Ok((header, 12 + 4 * count))
            } else {
                match HeaderExtension::parse(b.skip(12 + 4 * count)) {
                    Err(_) => Err(RtpError::InvalidPacketHeaderExtensionSize),
                    Ok((ext, n)) => Ok(
                        (Header { extension: Some(ext), ..header }, 12 + 4 * count + n),
                    ),
                }
            }
        }
    }
}

/// The first byte of a header from its parts.
fn pack_first(version: u8, padding: bool, extension: bool, csrc_count: u8) -> (b0: u8)
    requires
        version <= 3,
        csrc_count <= 15,
    ensures
        b0 == version * 64 + (if padding {
            32int
        } else {
            0int
        }) + (if extension {
            16int
        } else {
            0int
        }) + csrc_count,
{
    let p: u8 = if padding {
        1 << 5
    } else {
        0
    };
    let x: u8 = if extension {
        1 << 4
    } else {
        0
    };
    assert(1u8 << 5 == 32 && 1u8 << 4 == 16) by (bit_vector);
    assert(version << 6 | p | x | csrc_count == version * 64 + p + x + csrc_count) by (bit_vector)
        requires
            version <= 3,
            csrc_count <= 15,
            p == 0 || p == 32,
            x == 0 || x == 16,
    ;
    version << 6 | p | x | csrc_count
}

/// The second byte of a header from its parts.
fn pack_second(marker: bool, payload_type: u8) -> (b1: u8)
    requires
        payload_type <= 127,
    ensures
        b1 == (if marker {
            128int
        } else {
            0int
        }) + payload_type,
{
    let mut b1: u8 = payload_type;
    if marker {
        b1 |= 1 << 7;
        assert(payload_type | (1u8 << 7) == payload_type + 128) by (bit_vector)
            requires
                payload_type <= 127,
        ;
    }
    b1
}

/// The twelve bytes that a header starts with, from their parts.
pub open spec fn start_octets(
    first: u8,
    second: u8,
    sequence_number: u16,
    timestamp: u32,
    ssrc: u32,
) -> Seq<u8> {
    seq![first, second] + u16_octets(sequence_number) + u32_octets(timestamp) + u32_octets(ssrc)
}

/// Writes the twelve bytes that a header starts with.
fn put_start(
    out: &mut Octets,
    first: u8,
    second: u8,
    sequence_number: u16,
    timestamp: u32,
    ssrc: u32,
) -> (r: Result<(), RtpError>)
    requires
        old(out).wf(),
    ensures
        final(final(out).buf)@ == final(old(out).buf)@,
        match r {
            Ok(_) => {
                &&& old(out).rest().len() >= 12
                &&& final(out).wrote(
                    old(out),
                    start_octets(first, second, sequence_number, timestamp, ssrc),
                )
            },
            Err(e) => {
                &&& old(out).rest().len() < 12
                &&& e == short_buffer()
                &&& final(out).stopped(
                    old(out),
                    start_octets(first, second, sequence_number, timestamp, ssrc),
                )
            },
        },
{
    let ghost b0 = out.bytes();
    let ghost p = out.pos();
    lift(out.put_u8(first))?;
    lift(out.put_u8(second))?;
    let ghost w1 = seq![first, second];
    proof {
        lemma_spliced_twice(b0, p, seq![first], seq![second]);
        assert(seq![first] + seq![second] =~= w1);
    }
    lift(out.put_u16(sequence_number))?;
    let ghost w2 = w1 + u16_octets(sequence_number);
    proof {
        lemma_spliced_twice(b0, p, w1, u16_octets(sequence_number));
    }
    lift(out.put_u32(timestamp))?;
    let ghost w3 = w2 + u32_octets(timestamp);
    proof {
        lemma_spliced_twice(b0, p, w2, u32_octets(timestamp));
    }
    lift(out.put_u32(ssrc))?;
    proof {
        lemma_spliced_twice(b0, p, w3, u32_octets(ssrc));
    }
    Ok(())
}

impl RtpHeader {
    /// Whether the header can be written.
    pub fn is_encodable(&self) -> (ok: bool)
        ensures
            ok == self@.encodable(),
    {
        let extension_fits = match &self.extension {
            Some(ext) => ext.payload.len() <= 0xFFFF,
            None => true,
        };
        self.version <= 3 && self.payload_type <= 127 && self.csrc.len() <= 15 && extension_fits
    }

    /// Writes the twelve bytes that every header starts with.
    fn write_start(&self, out: &mut Octets) -> (r: Result<(), RtpError>)
        requires
            old(out).wf(),
            self@.encodable(),
        ensures
            final(final(out).buf)@ == final(old(out).buf)@,
            match r {
                Ok(_) => {
                    &&& old(out).rest().len() >= 12
                    &&& final(out).wrote(old(out), self@.start())
                },
                Err(e) => {
                    &&& old(out).rest().len() < 12
                    &&& e == short_buffer()
                    &&& final(out).stopped(old(out), self@.start())
                },
            },
    {
        let csrc_count = self.csrc.len() as u8;
        let first = pack_first(
            self.version,
            self.padding.is_some(),
            self.extension.is_some(),
            csrc_count,
        );
        let second = pack_second(self.marker, self.payload_type);
        assert(first == self@.first() && second == self@.second()) by {
            reveal(Header::first);
            reveal(Header::second);
        }
        put_start(out, first, second, self.sequence_number, self.timestamp, self.ssrc)
    }

    /// Writes the header up to and with the contributing sources.
    fn write_fixed(&self, out: &mut Octets) -> (r: Result<(), RtpError>)
        requires
            old(out).wf(),
            self@.encodable(),
        ensures
            final(final(out).buf)@ == final(old(out).buf)@,
            match r {
                Ok(_) => {
                    &&& old(out).rest().len() >= self@.fixed().len()
                    &&& final(out).wrote(old(out), self@.fixed())
                },
                Err(e) => {
                    &&& old(out).rest().len() < self@.fixed().len()
                    &&& e == short_buffer()
                    &&& final(out).stopped(old(out), self@.fixed())
                },
            },
    {
        let ghost b0 = out.bytes();
        let ghost p = out.pos();
        proof {
            self@.lemma_fixed_len();
            lemma_u32s_octets_len(self.csrc@);
        }
        self.write_start(out)?;
        lift(write_u32s(&self.csrc, out))?;
        proof {
            lemma_spliced_twice(b0, p, self@.start(), u32s_octets(self.csrc@));
        }
        Ok(())
    }

    /// Writes the header at the cursor. The padding and extension bits and
    /// the number of contributing sources are taken from what the header
    /// holds. Fails, with the buffer possibly written in part, exactly when
    /// the header does not fit.
    pub fn to_bytes(&self, out: &mut Octets) -> (r: Result<(), RtpError>)
        requires
            old(out).wf(),
            self@.encodable(),
        ensures
            final(final(out).buf)@ == final(old(out).buf)@,
            match r {
                Ok(_) => {
                    &&& old(out).rest().len() >= self@.wire().len()
                    &&& final(out).wrote(old(out), self@.wire())
                },
                Err(e) => {
                    &&& old(out).rest().len() < self@.wire().len()
                    &&& e == short_buffer()
                    &&& final(out).stopped(old(out), self@.wire())
                },
            },
    {
        let ghost b0 = out.bytes();
        let ghost p = out.pos();
        self.write_fixed(out)?;
        match &self.extension {
            Some(v) => {
                v.to_bytes(out)?;
                proof {
                    lemma_spliced_twice(b0, p, self@.fixed(), v@.wire());
                }
                Ok(())
            },
            None => Ok(()),
        }
    }

    /// Reads the header at the start of `buf`.
    pub fn from_slice(buf: &mut [u8]) -> (r: Result<RtpHeader, RtpError>)
        ensures
            final(buf)@ == old(buf)@,
            match r {
                Ok(h) => Header::parse(old(buf)@) matches Ok((v, _)) && v == h@,
                Err(e) => Header::parse(old(buf)@) == Err::<(Header, int), RtpError>(e),
            },
    {
        let mut b = Octets::with_slice(buf);
        proof {
            assert(b.rest() =~= old(buf)@);
        }
        RtpHeader::from_bytes(&mut b)
    }

    /// Reads the header at the cursor and moves behind it. What was read
    /// can be written again.
    ///
    /// A header whose first byte does not give version 2 is refused for its
    /// version, whatever else it holds, as soon as sixteen bytes are there.
    pub fn from_bytes(bytes: &mut Octets) -> (r: Result<RtpHeader, RtpError>)
        requires
            old(bytes).wf(),
        ensures
            final(final(bytes).buf)@ == final(old(bytes).buf)@,
            final(bytes).wf(),
            final(bytes).bytes() == old(bytes).bytes(),
            final(bytes).pos() >= old(bytes).pos(),
            match r {
                Ok(h) => {
                    &&& Header::parse(old(bytes).rest()) == Ok::<(Header, int), RtpError>(
                        (h@, final(bytes).pos() - old(bytes).pos()),
                    )
                    &&& h@.encodable()
                },
                Err(e) => Header::parse(old(bytes).rest()) == Err::<(Header, int), RtpError>(e),
            },
            old(bytes).rest().len() >= 16 && first_version(old(bytes).rest()[0]) != 2 ==> r
                is Err && r->Err_0 == RtpError::InvalidPacketVersion,
    {
        let ghost b = bytes.rest();
        if bytes.cap() < 4 * 4 {
            return Err(RtpError::PacketHeaderTooShort);
        }
        let first = lift(bytes.get_u8())?;
        let version = first >> 6;
        let padding = if (first & 0b00100000) > 0 {
            Some(lift(bytes.get_val(bytes.len() - 1))?)
        } else {
            None
        };
        let extension = (first & 0b00010000) > 0;
        let csrc_count = first & 0b00001111;
        proof {
            assert(first >> 6 == first / 64) by (bit_vector);
            assert(((first & 0b00100000) > 0) == ((first / 32) % 2 == 1)) by (bit_vector);
            assert(((first & 0b00010000) > 0) == ((first / 16) % 2 == 1)) by (bit_vector);
            assert(first & 0b00001111 == first % 16) by (bit_vector);
            assert(first == b[0]);
            assert(b.last() == bytes.bytes()[bytes.bytes().len() - 1]);
        }
        let second = match bytes.get_u8() {
            Ok(v) => v,
            Err(_) => {
                return Err(RtpError::PacketHeaderTooShort);
            },
        };
        let marker = (second & 0b10000000) > 0;
        let payload_type = second & 0b01111111;
        proof {
            assert(((second & 0b10000000) > 0) == (second >= 128)) by (bit_vector);
            assert(second & 0b01111111 == second % 128) by (bit_vector);
            assert(second == b[1]);
        }
        let sequence_number = lift(bytes.get_u16())?;
        let timestamp = lift(bytes.get_u32())?;
        if version != 2 {
            return Err(RtpError::InvalidPacketVersion);
        }
        let ssrc = lift(bytes.get_u32())?;
        if bytes.cap() < 4 * csrc_count as usize {
            return Err(RtpError::PacketHeaderTooShort);
        }
        let csrc = lift(read_u32s(bytes, csrc_count as usize))?;
        proof {
            assert(csrc@ =~= u32s_at(b, 12, csrc_count as nat));
            assert(bytes.rest() =~= b.skip(12 + 4 * csrc_count));
        }
        if !extension {
            return Ok(
                RtpHeader {
                    version,
                    padding,
                    extension: None,
                    marker,
                    payload_type,
                    sequence_number,
                    timestamp,
                    ssrc,
                    csrc,
                },
            );
        }
        let ext = match RtpHeaderExtension::from_bytes(bytes) {
            Ok(v) => v,
            Err(_) => {
                return Err(RtpError::InvalidPacketHeaderExtensionSize);
            },
        };
        Ok(
            RtpHeader {
                version,
                padding,
                extension: Some(ext),
                marker,
                payload_type,
                sequence_number,
                timestamp,
                ssrc,
                csrc,
            },
        )
    }
}

/// An RTP packet: its header and its payload, the padding not included.
#[derive(Debug, Clone, Eq, Hash, PartialEq)]
pub struct RtpPacket {
    pub header: RtpHeader,
    pub payload: Vec<u8>,
}

/// What an RTP packet holds.
pub struct MediaPacket {
    pub header: Header,
    pub payload: Seq<u8>,
}

impl View for RtpPacket {
    type V = MediaPacket;

    open spec fn view(&self) -> MediaPacket {
        MediaPacket { header: self.header@, payload: self.payload@ }
    }
}

impl MediaPacket {
    /// The padding on the wire: zeros, and in the last byte the number of
    /// padding bytes, that byte included.
    pub open spec fn padding_wire(self) -> Seq<u8> {
        match self.header.padding {
            Some(n) => zeros(n - 1) + seq![n],
            None => Seq::empty(),
        }
    }

    /// The packet on the wire: header, payload, padding.
    pub open spec fn wire(self) -> Seq<u8> {
        self.header.wire() + self.payload + self.padding_wire()
    }

    /// The packet can be written: its header can, and its padding, where it
    /// has any, counts at least the byte that holds the count.
    pub open spec fn encodable(self) -> bool {
        &&& self.header.encodable()
        &&& self.header.padding matches Some(n) ==> n >= 1
    }

    /// The packet that `b` holds. Whatever fails in the header is reported
    /// as an invalid header. The payload is what follows the header, less
    /// the padding bytes that the header counts at the end of `b`.
    pub open spec fn parse(b: Seq<u8>) -> Result<MediaPacket, RtpError> {
        match Header::parse(b) {
            Err(_) => Err(RtpError::InvalidPacketHeader),
            Ok((header, n)) => match header.padding {
                Some(v) => {
                    if v > b.len() - n {
                        Err(RtpError::InvalidPacketPaddingLength)
                    } else {
                        Ok(MediaPacket { header, payload: b.subrange(n, b.len() - v) })
                    }
                },
                None => Ok(MediaPacket { header, payload: b.skip(n) }),
            },
        }
    }
}

impl RtpPacket {
    /// A packet of the given header and payload.
    pub fn new(header: RtpHeader, payload: Vec<u8>) -> (r: Self)
        ensures
            r.header == header,
            r.payload == payload,
    {
        RtpPacket { header, payload }
    }

    /// Whether the packet can be written.
    pub fn is_encodable(&self) -> (ok: bool)
        ensures
            ok == self@.encodable(),
    {
        let padding_counts = match self.header.padding {
            Some(n) => n >= 1,
            None => true,
        };
        self.header.is_encodable() && padding_counts
    }

    /// Writes the packet at the cursor: the header, the payload, and, where
    /// the header counts padding, zeros and the count in the last byte.
    /// Fails, with the buffer possibly written in part, exactly when the
    /// packet does not fit.
    pub fn to_bytes(&self, out: &mut Octets) -> (r: Result<(), RtpError>)
        requires
            old(out).wf(),
            self@.encodable(),
        ensures
            final(final(out).buf)@ == final(old(out).buf)@,
            match r {
                Ok(_) => {
                    &&& old(out).rest().len() >= self@.wire().len()
                    &&& final(out).wrote(old(out), self@.wire())
                },
                Err(e) => {
                    &&& old(out).rest().len() < self@.wire().len()
                    &&& e == short_buffer()
                    &&& final(out).stopped(old(out), self@.wire())
                },
            },
    {
        let ghost b0 = out.bytes();
        let ghost p = out.pos();
        let ghost head = self@.header.wire();
        self.header.to_bytes(out)?;
        lift(out.put_bytes(self.payload.as_slice()))?;
        let ghost done = head + self.payload@;
        proof {
            lemma_spliced_twice(b0, p, head, self.payload@);
        }
        if let Some(padding_length) = self.header.padding {
            let mut i: usize = 0;
            let ghost total = self@.wire().len();
            proof {
                assert(done + zeros(0) =~= done);
                assert(self@.wire() =~= done + zeros(padding_length - 1) + seq![padding_length]);
            }
            while i < padding_length as usize - 1
                invariant
                    i <= padding_length - 1,
                    padding_length >= 1,
                    self@.wire() == done + zeros(padding_length - 1) + seq![padding_length],
                    b0 == old(out).bytes(),
                    p == old(out).pos(),
                    old(out).wf(),
                    total == done.len() + padding_length,
                    total == self@.wire().len(),
                    out.wrote(old(out), done + zeros(i as int)),
                    final(out.buf)@ == final(old(out).buf)@,
                decreases padding_length - 1 - i,
            {
                lift(out.put_u8(0))?;
                proof {
                    lemma_spliced_twice(b0, p, done + zeros(i as int), seq![0u8]);
                    assert(done + zeros(i as int) + seq![0u8] =~= done + zeros(i + 1));
                }
                i = i + 1;
            }
            lift(out.put_u8(padding_length))?;
            proof {
                lemma_spliced_twice(b0, p, done + zeros(i as int), seq![padding_length]);
                assert(done + zeros(i as int) + seq![padding_length] =~= self@.wire());
            }
        } else {
            proof {
                assert(done =~= self@.wire());
            }
        }
        Ok(())
    }

    /// Reads the packet that `buf` holds.
    pub fn from_slice(buf: &mut [u8]) -> (r: Result<RtpPacket, RtpError>)
        ensures
            final(buf)@ == old(buf)@,
            match r {
                Ok(p) => MediaPacket::parse(old(buf)@) == Ok::<MediaPacket, RtpError>(p@),
                Err(e) => MediaPacket::parse(old(buf)@) == Err::<MediaPacket, RtpError>(e),
            },
    {
        let mut b = Octets::with_slice(buf);
        proof {
            assert(b.rest() =~= old(buf)@);
        }
        RtpPacket::from_bytes(&mut b)
    }

    /// Reads the packet that the rest of the buffer holds. With padding the
    /// cursor ends where the padding starts; without, behind the header.
    ///
    /// A packet whose first byte does not give version 2 is refused for its
    /// header, whatever else it holds, as soon as sixteen bytes are there.
    pub fn from_bytes(bytes: &mut Octets) -> (r: Result<RtpPacket, RtpError>)
        requires
            old(bytes).wf(),
        ensures
            final(final(bytes).buf)@ == final(old(bytes).buf)@,
            final(bytes).wf(),
            final(bytes).bytes() == old(bytes).bytes(),
            final(bytes).pos() >= old(bytes).pos(),
            match r {
                Ok(p) => MediaPacket::parse(old(bytes).rest()) == Ok::<MediaPacket, RtpError>(p@),
                Err(e) => MediaPacket::parse(old(bytes).rest()) == Err::<MediaPacket, RtpError>(
                    e,
                ),
            },
            old(bytes).rest().len() >= 16 && first_version(old(bytes).rest()[0]) != 2 ==> r
                is Err && r->Err_0 == RtpError::InvalidPacketHeader,
    {
        let ghost b = bytes.rest();
        let ghost whole = bytes.bytes();
        let ghost start = bytes.pos();
        let header = match RtpHeader::from_bytes(bytes) {
            Ok(h) => h,
            Err(_) => {
                return Err(RtpError::InvalidPacketHeader);
            },
        };
        let ghost at = bytes.pos();
        let payload = match header.padding {
            Some(v) => {
                if v as usize > bytes.cap() {
                    return Err(RtpError::InvalidPacketPaddingLength);
                }
                let region = lift(bytes.get_bytes(bytes.cap() - v as usize))?;
                let data = region.to_vec();
                proof {
                    assert(data@ =~= b.subrange(at - start, b.len() - v));
                }
                data
            },
            None => {
                let data = bytes.to_vec();
                proof {
                    assert(data@ =~= b.skip(at - start));
                }
                data
            },
        };
        proof {
            assert(bytes.bytes() =~= whole);
        }
        Ok(RtpPacket { header, payload })
    }
}

} // verus!
