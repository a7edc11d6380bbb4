//! Source descriptions: for each source a chunk of typed text items, closed
//! by a zero byte and padded with zeros to the next 32-bit boundary.

use crate::octets::{
    lemma_spliced_twice, lemma_u32_at_write, lemma_u32_read_at, spliced, u16_octets, u24_octets,
    u32_at, u32_octets, zeros, Octets,
};
use crate::rtcp::{lift, short_buffer, RtcpError, MAX_BODY_LEN};
use vstd::arithmetic::div_mod::lemma_add_mod_noop;
use vstd::prelude::*;

verus! {

/// How many bytes bring a length of `len` up to a multiple of four.
pub open spec fn padding_for(len: int) -> int {
    (4 - len % 4) % 4
}

/// How many bytes bring a length of `len` up to a multiple of four.
pub fn get_padding(len: usize) -> (pad: usize)
    ensures
        pad == padding_for(len as int),
        0 <= pad < 4,
        (len + pad) % 4 == 0,
{
    if len % 4 == 0 {
        return 0;
    }
    return 4 - (len % 4);
}

/// One item of a chunk: its type, which is not zero on the wire, and its
/// text.
#[derive(Debug, Clone, Eq, PartialEq, Hash)]
pub struct RtcpSourceDescriptionItem {
    pub item_type: u8,
    pub data: Vec<u8>,
}

/// What an item holds.
pub struct SdesItem {
    pub item_type: u8,
    pub data: Seq<u8>,
}

impl View for RtcpSourceDescriptionItem {
    type V = SdesItem;

    open spec fn view(&self) -> SdesItem {
        SdesItem { item_type: self.item_type, data: self.data@ }
    }
}

/// The items of one source.
#[derive(Debug, Clone, Eq, PartialEq, Hash)]
pub struct RtcpSourceDescriptionChunk {
    pub ssrc: u32,
    pub items: Vec<RtcpSourceDescriptionItem>,
}

/// What a chunk holds.
pub struct SdesChunk {
    pub ssrc: u32,
    pub items: Seq<SdesItem>,
}

/// What a list of items holds.
pub open spec fn items_view(items: Seq<RtcpSourceDescriptionItem>) -> Seq<SdesItem> {
    Seq::new(items.len(), |i: int| items[i]@)
}

/// What a list of chunks holds.
pub open spec fn chunks_view(chunks: Seq<RtcpSourceDescriptionChunk>) -> Seq<SdesChunk> {
    Seq::new(chunks.len(), |i: int| chunks[i]@)
}

impl View for RtcpSourceDescriptionChunk {
    type V = SdesChunk;

    open spec fn view(&self) -> SdesChunk {
        SdesChunk { ssrc: self.ssrc, items: items_view(self.items@) }
    }
}

/// A source description packet.
#[derive(Debug, Clone, Eq, PartialEq, Hash)]
pub struct RtcpSourceDescriptionPacket {
    pub chunks: Vec<RtcpSourceDescriptionChunk>,
}

impl View for RtcpSourceDescriptionPacket {
    type V = Seq<SdesChunk>;

    open spec fn view(&self) -> Seq<SdesChunk> {
        chunks_view(self.chunks@)
    }
}

/// An item on the wire: its type, the length of its text in one byte, and
/// the text.
pub open spec fn item_wire(item: SdesItem) -> Seq<u8> {
    seq![item.item_type, item.data.len() as u8] + item.data
}

/// The items of a chunk on the wire, one after the other.
pub open spec fn items_wire(items: Seq<SdesItem>) -> Seq<u8>
    decreases items.len(),
{
    if items.len() == 0 {
        Seq::empty()
    } else {
        item_wire(items[0]) + items_wire(items.skip(1))
    }
}

/// The text of every item fits the one byte that holds its length.
pub open spec fn items_fit(items: Seq<SdesItem>) -> bool {
    forall|i: int| 0 <= i < items.len() ==> (#[trigger] items[i]).data.len() <= 255
}

impl SdesChunk {
    /// The chunk up to and with its closing zero byte.
    pub open spec fn body(self) -> Seq<u8> {
        u32_octets(self.ssrc) + items_wire(self.items) + seq![0u8]
    }

    /// The chunk on the wire when it starts at position `at` of the buffer:
    /// its body, then zeros up to the next position that is a multiple of
    /// four.
    pub open spec fn wire(self, at: int) -> Seq<u8> {
        self.body() + zeros(padding_for(at + self.body().len()))
    }

    /// The length of the chunk when it starts on a 32-bit boundary.
    pub open spec fn aligned_len(self) -> int {
        self.body().len() + padding_for(self.body().len() as int)
    }
}

/// The chunks on the wire, one after the other, the first at position `at`.
pub open spec fn chunks_wire(chunks: Seq<SdesChunk>, at: int) -> Seq<u8>
    decreases chunks.len(),
{
    if chunks.len() == 0 {
        Seq::empty()
    } else {
        let first = chunks[0].wire(at);
        first + chunks_wire(chunks.skip(1), at + first.len())
    }
}

/// The length of the chunks when each starts on a 32-bit boundary.
pub open spec fn chunks_aligned_len(chunks: Seq<SdesChunk>) -> int
    decreases chunks.len(),
{
    if chunks.len() == 0 {
        0
    } else {
        chunks[0].aligned_len() + chunks_aligned_len(chunks.skip(1))
    }
}

/// The text of every item of every chunk fits its length byte.
pub open spec fn chunks_fit(chunks: Seq<SdesChunk>) -> bool {
    forall|i: int| 0 <= i < chunks.len() ==> items_fit((#[trigger] chunks[i]).items)
}

/// The result of reading items or chunks, with `front` put before what was
/// read.
pub open spec fn with_front<T>(front: Seq<T>, r: Result<(Seq<T>, int), RtcpError>) -> Result<
    (Seq<T>, int),
    RtcpError,
> {
    match r {
        Ok((list, end)) => Ok((front + list, end)),
        Err(e) => Err(e),
    }
}

/// The items that start at position `at`, and the position behind the zero
/// byte that closes them.
pub open spec fn parse_items(b: Seq<u8>, at: int) -> Result<(Seq<SdesItem>, int), RtcpError>
    decreases b.len() - at,
{
    if at < 0 || at >= b.len() {
        Err(short_buffer())
    } else if b[at] == 0 {
        Ok((Seq::empty(), at + 1))
    } else if at + 1 >= b.len() {
        Err(short_buffer())
    } else if at + 2 + b[at + 1] > b.len() {
        Err(short_buffer())
    } else {
        let item = SdesItem { item_type: b[at], data: b.subrange(at + 2, at + 2 + b[at + 1]) };
        with_front(seq![item], parse_items(b, at + 2 + b[at + 1]))
    }
}

/// The chunk that starts at position `at`, and the position behind its
/// padding. The padding brings the position, counted from the start of the
/// buffer, up to a multiple of four.
pub open spec fn parse_chunk(b: Seq<u8>, at: int) -> Result<(SdesChunk, int), RtcpError> {
    if at < 0 || at + 4 > b.len() {
        Err(short_buffer())
    } else {
        match parse_items(b, at + 4) {
            Err(e) => Err(e),
            Ok((items, end)) => {
                if end + padding_for(end) > b.len() {
                    Err(short_buffer())
                } else {
                    Ok((SdesChunk { ssrc: u32_at(b, at), items }, end + padding_for(end)))
                }
            },
        }
    }
}

/// The `count` chunks that start at position `at`, and the position behind
/// the last of them.
pub open spec fn parse_chunks(b: Seq<u8>, at: int, count: nat) -> Result<
    (Seq<SdesChunk>, int),
    RtcpError,
>
    decreases count,
{
    if count == 0 {
        Ok((Seq::empty(), at))
    } else {
        match parse_chunk(b, at) {
            Err(e) => Err(e),
            Ok((chunk, next)) => with_front(seq![chunk], parse_chunks(b, next, (count - 1) as nat)),
        }
    }
}

/// The padding of each of the `count` chunks from position `at` is made of
/// zero bytes.
pub open spec fn zero_padded(b: Seq<u8>, at: int, count: nat) -> bool
    decreases count,
{
    if count == 0 {
        true
    } else {
        match parse_chunk(b, at) {
            Err(_) => true,
            Ok((chunk, next)) => {
                &&& forall|j: int| at + chunk.body().len() <= j < next ==> b[j] == 0
                &&& zero_padded(b, next, (count - 1) as nat)
            },
        }
    }
}

/// An item takes two bytes and its text.
pub proof fn lemma_items_wire_len(items: Seq<SdesItem>)
    ensures
        items_wire(items).len() >= 0,
        items.len() > 0 ==> items_wire(items).len() == 2 + items[0].data.len() + items_wire(
            items.skip(1),
        ).len(),
    decreases items.len(),
{
}

/// Items that were read are the bytes they were read from, up to the
/// closing zero byte; the text of each fits its length byte.
pub proof fn lemma_parse_items_then_wire(b: Seq<u8>, at: int)
    requires
        parse_items(b, at) is Ok,
    ensures
        ({
            let (items, end) = parse_items(b, at)->Ok_0;
            &&& 0 <= at < end <= b.len()
            &&& items_fit(items)
            &&& items_wire(items) + seq![0u8] == b.subrange(at, end)
        }),
    decreases b.len() - at,
{
    let (items, end) = parse_items(b, at)->Ok_0;
    if b[at] == 0 {
        assert(items_wire(items) + seq![0u8] =~= b.subrange(at, end));
    } else {
        let n = b[at + 1] as int;
        let item = SdesItem { item_type: b[at], data: b.subrange(at + 2, at + 2 + n) };
        lemma_parse_items_then_wire(b, at + 2 + n);
        let (rest, rest_end) = parse_items(b, at + 2 + n)->Ok_0;
        assert(items == seq![item] + rest);
        assert(items[0] == item);
        assert(items.skip(1) =~= rest);
        assert(item_wire(item) =~= b.subrange(at, at + 2 + n));
        assert(b.subrange(at, at + 2 + n) + b.subrange(at + 2 + n, end) =~= b.subrange(at, end));
        assert forall|i: int| 0 <= i < items.len() implies (#[trigger] items[i]).data.len()
            <= 255 by {
            if i > 0 {
                assert(items[i] == rest[i - 1]);
            }
        }
    }
}

/// A chunk that was read is as long on the wire as what it was read from,
/// and is those bytes exactly when its padding is zeros.
pub proof fn lemma_parse_chunk_then_wire(b: Seq<u8>, at: int)
    requires
        parse_chunk(b, at) is Ok,
    ensures
        ({
            let (chunk, next) = parse_chunk(b, at)->Ok_0;
            &&& 0 <= at < next <= b.len()
            &&& items_fit(chunk.items)
            &&& chunk.wire(at).len() == next - at
            &&& chunk.wire(at) == b.subrange(at, next) <==> forall|j: int|
                at + chunk.body().len() <= j < next ==> b[j] == 0
        }),
{
    let (chunk, next) = parse_chunk(b, at)->Ok_0;
    lemma_parse_items_then_wire(b, at + 4);
    let (items, end) = parse_items(b, at + 4)->Ok_0;
    lemma_u32_at_write(b, at);
    assert(chunk.body() =~= b.subrange(at, end)) by {
        assert(u32_octets(chunk.ssrc) + (items_wire(items) + seq![0u8]) =~= chunk.body());
        assert(b.subrange(at, at + 4) + b.subrange(at + 4, end) =~= b.subrange(at, end));
    }
    assert(at + chunk.body().len() == end);
    let wire = chunk.wire(at);
    if forall|j: int| end <= j < next ==> b[j] == 0 {
        assert(wire =~= b.subrange(at, next));
    }
    if wire == b.subrange(at, next) {
        assert forall|j: int| end <= j < next implies b[j] == 0 by {
            assert(b.subrange(at, next)[j - at] == b[j]);
            assert(wire[j - at] == 0);
        }
    }
}

/// Chunks that were read are as long on the wire as what they were read
/// from, and are those bytes exactly when their padding is zeros.
pub proof fn lemma_parse_chunks_then_wire(b: Seq<u8>, at: int, count: nat)
    requires
        parse_chunks(b, at, count) is Ok,
        0 <= at <= b.len(),
    ensures
        ({
            let (chunks, end) = parse_chunks(b, at, count)->Ok_0;
            &&& at <= end <= b.len()
            &&& chunks.len() == count
            &&& chunks_fit(chunks)
            &&& chunks_wire(chunks, at).len() == end - at
            &&& chunks_wire(chunks, at) == b.subrange(at, end) <==> zero_padded(b, at, count)
        }),
    decreases count,
{
    let (chunks, end) = parse_chunks(b, at, count)->Ok_0;
    if count == 0 {
        assert(chunks_wire(chunks, at) =~= b.subrange(at, end));
    } else {
        let (chunk, next) = parse_chunk(b, at)->Ok_0;
        lemma_parse_chunk_then_wire(b, at);
        lemma_parse_chunks_then_wire(b, next, (count - 1) as nat);
        let (rest, rest_end) = parse_chunks(b, next, (count - 1) as nat)->Ok_0;
        assert(chunks == seq![chunk] + rest);
        assert(chunks[0] == chunk);
        assert(chunks.skip(1) =~= rest);
        let first = chunk.wire(at);
        let later = chunks_wire(rest, next);
        assert(chunks_wire(chunks, at) == first + later);
        assert(b.subrange(at, next) + b.subrange(next, end) =~= b.subrange(at, end));
        if first + later == b.subrange(at, end) {
            assert(first =~= b.subrange(at, next)) by {
                assert(first =~= (first + later).subrange(0, next - at));
                assert(b.subrange(at, next) =~= b.subrange(at, end).subrange(0, next - at));
            }
            assert(later =~= b.subrange(next, end)) by {
                assert(later =~= (first + later).subrange(next - at, end - at));
                assert(b.subrange(next, end) =~= b.subrange(at, end).subrange(
                    next - at,
                    end - at,
                ));
            }
        }
        assert forall|i: int| 0 <= i < chunks.len() implies items_fit(
            (#[trigger] chunks[i]).items,
        ) by {
            if i > 0 {
                assert(chunks[i] == rest[i - 1]);
            }
        }
    }
}

/// No item has the type zero, which closes a chunk.
pub open spec fn items_typed(items: Seq<SdesItem>) -> bool {
    forall|i: int| 0 <= i < items.len() ==> (#[trigger] items[i]).item_type != 0
}

/// No item of any chunk has the type zero.
pub open spec fn chunks_typed(chunks: Seq<SdesChunk>) -> bool {
    forall|i: int| 0 <= i < chunks.len() ==> items_typed((#[trigger] chunks[i]).items)
}

/// Where the bytes from position `at` are the wire form of `items` and the
/// zero byte that closes them, reading items there gives `items`; the text
/// of each must fit its length byte, and none may have the type zero.
pub proof fn lemma_items_wire_then_parse(b: Seq<u8>, at: int, items: Seq<SdesItem>)
    requires
        0 <= at,
        at + items_wire(items).len() + 1 <= b.len(),
        b.subrange(at, at + items_wire(items).len() + 1) == items_wire(items) + seq![0u8],
        items_fit(items),
        items_typed(items),
    ensures
        parse_items(b, at) == Ok::<(Seq<SdesItem>, int), RtcpError>(
            (items, at + items_wire(items).len() + 1),
        ),
    decreases items.len(),
{
    let all = items_wire(items) + seq![0u8];
    let n = items_wire(items).len() as int;
    assert(b.subrange(at, at + n + 1)[0] == b[at]);
    if items.len() == 0 {
        assert(items =~= Seq::<SdesItem>::empty());
    } else {
        let first = items[0];
        let rest = items.skip(1);
        let w = item_wire(first);
        let len = first.data.len() as int;
        lemma_items_wire_len(items);
        assert(forall|j: int| 0 <= j < n + 1 ==> b[at + j] == #[trigger] all[j]) by {
            assert forall|j: int| 0 <= j < n + 1 implies b[at + j] == #[trigger] all[j] by {
                assert(b.subrange(at, at + n + 1)[j] == b[at + j]);
            }
        }
        assert(all[0] == first.item_type);
        assert(all[1] == len as u8);
        assert(b[at] == first.item_type);
        assert(b[at + 1] == len);
        assert(b.subrange(at + 2, at + 2 + len) =~= first.data) by {
            assert forall|j: int| 0 <= j < len implies b[at + 2 + j] == first.data[j] by {
                assert(all[2 + j] == first.data[j]);
            }
        }
        assert(b.subrange(at + 2 + len, at + n + 1) =~= items_wire(rest) + seq![0u8]) by {
            assert forall|j: int| 0 <= j < n + 1 - (2 + len) implies b[at + 2 + len + j] == (
            items_wire(rest) + seq![0u8])[j] by {
                assert(all[2 + len + j] == (items_wire(rest) + seq![0u8])[j]);
            }
        }
        assert forall|i: int| 0 <= i < rest.len() implies (#[trigger] rest[i]).data.len() <= 255
            && rest[i].item_type != 0 by {
            assert(rest[i] == items[i + 1]);
        }
        lemma_items_wire_then_parse(b, at + 2 + len, rest);
        assert(seq![first] + rest =~= items);
        assert(SdesItem { item_type: b[at], data: b.subrange(at + 2, at + 2 + len) } == first);
    }
}

/// Where the bytes from position `at` are the wire form of a chunk that
/// starts there, reading a chunk there gives that chunk.
pub proof fn lemma_chunk_wire_then_parse(b: Seq<u8>, at: int, chunk: SdesChunk)
    requires
        0 <= at,
        at + chunk.wire(at).len() <= b.len(),
        b.subrange(at, at + chunk.wire(at).len()) == chunk.wire(at),
        items_fit(chunk.items),
        items_typed(chunk.items),
    ensures
        parse_chunk(b, at) == Ok::<(SdesChunk, int), RtcpError>(
            (chunk, at + chunk.wire(at).len()),
        ),
{
    let w = chunk.wire(at);
    let n = items_wire(chunk.items).len() as int;
    lemma_items_wire_len(chunk.items);
    assert(b.subrange(at, at + 4) =~= u32_octets(chunk.ssrc)) by {
        assert(w.subrange(0, 4) =~= u32_octets(chunk.ssrc));
        assert(b.subrange(at, at + 4) =~= b.subrange(at, at + w.len()).subrange(0, 4));
    }
    lemma_u32_read_at(b, at, chunk.ssrc);
    assert(b.subrange(at + 4, at + 4 + n + 1) =~= items_wire(chunk.items) + seq![0u8]) by {
        assert(w.subrange(4, 4 + n + 1) =~= items_wire(chunk.items) + seq![0u8]);
        assert(b.subrange(at + 4, at + 4 + n + 1) =~= b.subrange(at, at + w.len()).subrange(
            4,
            4 + n + 1,
        ));
    }
    lemma_items_wire_then_parse(b, at + 4, chunk.items);
}

/// Where the bytes from position `at` are the wire form of chunks that
/// start there, reading as many chunks there gives those chunks.
pub proof fn lemma_chunks_wire_then_parse(b: Seq<u8>, at: int, chunks: Seq<SdesChunk>)
    requires
        0 <= at,
        at + chunks_wire(chunks, at).len() <= b.len(),
        b.subrange(at, at + chunks_wire(chunks, at).len()) == chunks_wire(chunks, at),
        chunks_fit(chunks),
        chunks_typed(chunks),
    ensures
        parse_chunks(b, at, chunks.len()) == Ok::<(Seq<SdesChunk>, int), RtcpError>(
            (chunks, at + chunks_wire(chunks, at).len()),
        ),
    decreases chunks.len(),
{
    let all = chunks_wire(chunks, at);
    if chunks.len() == 0 {
        assert(chunks =~= Seq::<SdesChunk>::empty());
    } else {
        let first = chunks[0];
        let w = first.wire(at);
        let rest = chunks.skip(1);
        let later = chunks_wire(rest, at + w.len());
        assert(all == w + later);
        assert(b.subrange(at, at + w.len()) =~= w) by {
            assert(b.subrange(at, at + w.len()) =~= b.subrange(at, at + all.len()).subrange(
                0,
                w.len() as int,
            ));
        }
        assert(b.subrange(at + w.len(), at + all.len()) =~= later) by {
            assert(b.subrange(at + w.len(), at + all.len()) =~= b.subrange(
                at,
                at + all.len(),
            ).subrange(w.len() as int, all.len() as int));
        }
        lemma_chunk_wire_then_parse(b, at, first);
        assert forall|i: int| 0 <= i < rest.len() implies items_fit((#[trigger] rest[i]).items)
            && items_typed(rest[i].items) by {
            assert(rest[i] == chunks[i + 1]);
        }
        lemma_chunks_wire_then_parse(b, at + w.len(), rest);
        assert(seq![first] + rest =~= chunks);
    }
}

/// Positions with the same remainder by four call for the same padding,
/// and still do when both move on by `n`.
pub proof fn lemma_padding_shift(at: int, to: int, n: int)
    requires
        at % 4 == to % 4,
    ensures
        (at + n) % 4 == (to + n) % 4,
        padding_for(at + n) == padding_for(to + n),
{
    lemma_add_mod_noop(at, n, 4);
    lemma_add_mod_noop(to, n, 4);
}

/// The wire form of a list of chunks depends on where it starts only through
/// the remainder of that position by four.
pub proof fn lemma_chunks_wire_shift(chunks: Seq<SdesChunk>, at: int, to: int)
    requires
        at % 4 == to % 4,
    ensures
        chunks_wire(chunks, at) == chunks_wire(chunks, to),
    decreases chunks.len(),
{
    if chunks.len() > 0 {
        let first = chunks[0];
        lemma_padding_shift(at, to, first.body().len() as int);
        assert(first.wire(at) == first.wire(to));
        let w = first.wire(at).len() as int;
        lemma_padding_shift(at, to, w);
        lemma_chunks_wire_shift(chunks.skip(1), at + w, to + w);
    }
}

/// On a 32-bit boundary a chunk has its aligned length.
pub proof fn lemma_chunk_wire_len(chunk: SdesChunk, at: int)
    requires
        at % 4 == 0,
    ensures
        chunk.wire(at).len() == chunk.aligned_len(),
        chunk.aligned_len() % 4 == 0,
        chunk.aligned_len() >= 8,
{
    lemma_items_wire_len(chunk.items);
}

/// From a 32-bit boundary on, chunks have their aligned length.
pub proof fn lemma_chunks_wire_len(chunks: Seq<SdesChunk>, at: int)
    requires
        at % 4 == 0,
    ensures
        chunks_wire(chunks, at).len() == chunks_aligned_len(chunks),
        chunks_aligned_len(chunks) % 4 == 0,
        chunks_aligned_len(chunks) >= 0,
    decreases chunks.len(),
{
    if chunks.len() > 0 {
        lemma_chunk_wire_len(chunks[0], at);
        lemma_chunks_wire_len(chunks.skip(1), at + chunks[0].wire(at).len());
    }
}

impl RtcpSourceDescriptionItem {
    /// An item of the given type and text.
    pub fn new(item_type: u8, data: Vec<u8>) -> (r: Self)
        ensures
            r@ == (SdesItem { item_type, data: data@ }),
    {
        RtcpSourceDescriptionItem { item_type, data }
    }
}

impl RtcpSourceDescriptionChunk {
    /// A chunk of the given source and items.
    pub fn new(ssrc: u32, items: Vec<RtcpSourceDescriptionItem>) -> (r: Self)
        ensures
            r@ == (SdesChunk { ssrc, items: items_view(items@) }),
    {
        RtcpSourceDescriptionChunk { ssrc, items }
    }

    /// The length of the chunk on the wire when it starts on a 32-bit
    /// boundary, in bytes.
    pub fn get_length(&self) -> (n: u32)
        requires
            self@.aligned_len() <= u32::MAX,
        ensures
            n == self@.aligned_len(),
    {
        let ghost items = self@.items;
        let mut b_length: usize = 4;
        let mut i: usize = 0;
        proof {
            assert(items.skip(0) =~= items);
        }
        while i < self.items.len()
            invariant
                i <= self.items@.len(),
                items == self@.items,
                self@.aligned_len() <= u32::MAX,
                b_length + items_wire(items.skip(i as int)).len() == 4 + items_wire(items).len(),
            decreases self.items@.len() - i,
        {
            proof {
                let here = items.skip(i as int);
                lemma_items_wire_len(here);
                lemma_items_wire_len(here.skip(1));
                assert(here[0] == self.items@[i as int]@);
                assert(here.skip(1) =~= items.skip(i + 1));
            }
            b_length = b_length + 2 + self.items[i].data.len();
            i = i + 1;
        }
        proof {
            assert(items.skip(i as int).len() == 0);
        }
        b_length = b_length + 1;
        b_length = b_length + get_padding(b_length);
        b_length as u32
    }

    /// Writes the chunk at the cursor. Fails, with the buffer possibly
    /// written in part, exactly when the chunk does not fit.
    pub fn to_bytes(&self, out: &mut Octets) -> (r: Result<(), RtcpError>)
        requires
            old(out).wf(),
            items_fit(self@.items),
        ensures
            final(final(out).buf)@ == final(old(out).buf)@,
            match r {
                Ok(_) => {
                    &&& old(out).rest().len() >= self@.wire(old(out).pos()).len()
                    &&& final(out).wrote(old(out), self@.wire(old(out).pos()))
                },
                Err(e) => {
                    &&& old(out).rest().len() < self@.wire(old(out).pos()).len()
                    &&& e == short_buffer()
                    &&& final(out).stopped(old(out), self@.wire(old(out).pos()))
                },
            },
    {
        let ghost b0 = out.bytes();
        let ghost p = out.pos();
        let ghost items = self@.items;
        let ghost head = u32_octets(self.ssrc);
        lift(out.put_u32(self.ssrc))?;
        let ghost done: Seq<u8> = Seq::empty();
        let mut i: usize = 0;
        proof {
            assert(items.skip(0) =~= items);
            assert(head + done =~= head);
            assert(done + items_wire(items) =~= items_wire(items));
        }
        while i < self.items.len()
            invariant
                i <= self.items@.len(),
                items == self@.items,
                items_fit(items),
                b0 == old(out).bytes(),
                p == old(out).pos(),
                old(out).wf(),
                head == u32_octets(self.ssrc),
                done + items_wire(items.skip(i as int)) == items_wire(items),
                out.wrote(old(out), head + done),
                final(out.buf)@ == final(old(out).buf)@,
            decreases self.items@.len() - i,
        {
            let item = &self.items[i];
            proof {
                let here = items.skip(i as int);
                lemma_items_wire_len(here);
                lemma_items_wire_len(here.skip(1));
                assert(here[0] == item@);
                assert(here.skip(1) =~= items.skip(i + 1));
                assert(item@.data.len() <= 255);
                assert((done + item_wire(item@)) + items_wire(items.skip(i + 1)) =~= done + (
                item_wire(item@) + items_wire(items.skip(i + 1))));
            }
            let ghost w0 = head + done;
            lift(out.put_u8(item.item_type))?;
            proof {
                lemma_spliced_twice(b0, p, w0, seq![item.item_type]);
            }
            lift(out.put_u8(item.data.len() as u8))?;
            proof {
                lemma_spliced_twice(
                    b0,
                    p,
                    w0 + seq![item.item_type],
                    seq![item.data.len() as u8],
                );
            }
            lift(out.put_bytes(item.data.as_slice()))?;
            proof {
                lemma_spliced_twice(
                    b0,
                    p,
                    w0 + seq![item.item_type] + seq![item.data.len() as u8],
                    item.data@,
                );
                assert(w0 + seq![item.item_type] + seq![item.data.len() as u8] + item.data@
                    =~= head + (done + item_wire(item@)));
                done = done + item_wire(item@);
            }
            i = i + 1;
        }
        proof {
            assert(items.skip(i as int).len() == 0);
            assert(done =~= items_wire(items));
        }
        lift(out.put_u8(0))?;
        proof {
            lemma_spliced_twice(b0, p, head + done, seq![0u8]);
            assert(head + done + seq![0u8] == self@.body());
        }
        let padding = get_padding(out.off());
        let ghost body = self@.body();
        match padding {
            0 => {
                proof {
                    assert(body + zeros(0) =~= body);
                }
            },
            1 => {
                lift(out.put_u8(0))?;
                proof {
                    lemma_spliced_twice(b0, p, body, seq![0u8]);
                    assert(seq![0u8] =~= zeros(1));
                }
            },
            2 => {
                lift(out.put_u16(0))?;
                proof {
                    lemma_spliced_twice(b0, p, body, u16_octets(0));
                    assert(u16_octets(0) =~= zeros(2));
                }
            },
            3 => {
                lift(out.put_u24(0))?;
                proof {
                    lemma_spliced_twice(b0, p, body, u24_octets(0));
                    assert(u24_octets(0) =~= zeros(3));
                }
            },
            _ => {
                return Err(RtcpError::InvalidPaddingSize);
            },
        }
        Ok(())
    }

    /// Reads one chunk at the cursor: the source, its items up to the zero
    /// byte that closes them, and the padding behind it. Fails exactly when
    /// the buffer ends before the chunk does.
    pub fn from_bytes(bytes: &mut Octets) -> (r: Result<RtcpSourceDescriptionChunk, RtcpError>)
        requires
            old(bytes).wf(),
        ensures
            final(final(bytes).buf)@ == final(old(bytes).buf)@,
            final(bytes).wf(),
            final(bytes).bytes() == old(bytes).bytes(),
            final(bytes).pos() >= old(bytes).pos(),
            match r {
                Ok(chunk) => parse_chunk(old(bytes).bytes(), old(bytes).pos()) == Ok::<
                    (SdesChunk, int),
                    RtcpError,
                >((chunk@, final(bytes).pos())),
                Err(e) => parse_chunk(old(bytes).bytes(), old(bytes).pos()) == Err::<
                    (SdesChunk, int),
                    RtcpError,
                >(e),
            },
    {
        let ghost b = bytes.bytes();
        let ghost start = bytes.pos();
        let ssrc = lift(bytes.get_u32())?;
        let mut items: Vec<RtcpSourceDescriptionItem> = Vec::new();
        proof {
            assert(items_view(items@) =~= Seq::empty());
            assert(with_front(items_view(items@), parse_items(b, start + 4)) == parse_items(
                b,
                start + 4,
            )) by {
                match parse_items(b, start + 4) {
                    Ok((list, end)) => {
                        assert(items_view(items@) + list =~= list);
                    },
                    Err(_) => {},
                }
            }
        }
        loop
            invariant_except_break
                with_front(items_view(items@), parse_items(b, bytes.pos())) == parse_items(
                    b,
                    start + 4,
                ),
            invariant
                b == old(bytes).bytes(),
                start == old(bytes).pos(),
                0 <= start,
                start + 4 <= bytes.pos(),
                start + 4 <= b.len(),
                bytes.wf(),
                bytes.bytes() == b,
                ssrc == u32_at(b, start),
                final(bytes.buf)@ == final(old(bytes).buf)@,
            ensures
                parse_chunk(b, start) == Ok::<(SdesChunk, int), RtcpError>(
                    (SdesChunk { ssrc, items: items_view(items@) }, bytes.pos()),
                ),
            decreases b.len() - bytes.pos(),
        {
            let ghost at = bytes.pos();
            let item_type = lift(bytes.get_u8())?;
            if item_type == 0 {
                let padding = get_padding(bytes.off());
                if padding > 0 {
                    let skipped = lift(bytes.get_bytes(padding))?;
                }
                proof {
                    assert(items_view(items@) + Seq::<SdesItem>::empty() =~= items_view(items@));
                    assert(bytes.bytes() =~= b);
                }
                break ;
            }
            let length = lift(bytes.get_u8())?;
            let region = lift(bytes.get_bytes(length as usize))?;
            let data = region.to_vec();
            proof {
                assert(data@ =~= b.subrange(at + 2, at + 2 + length));
                assert(bytes.bytes() =~= b);
            }
            let ghost before = items_view(items@);
            let item = RtcpSourceDescriptionItem { item_type, data };
            items.push(item);
            proof {
                assert(items_view(items@) =~= before + seq![item@]);
                match parse_items(b, at + 2 + length) {
                    Ok((list, end)) => {
                        assert(before + (seq![item@] + list) =~= items_view(items@) + list);
                    },
                    Err(_) => {},
                }
            }
        }
        Ok(RtcpSourceDescriptionChunk { ssrc, items })
    }
}

impl RtcpSourceDescriptionPacket {
    /// A source description of the given chunks.
    pub fn new(chunks: Vec<RtcpSourceDescriptionChunk>) -> (r: Self)
        ensures
            r@ == chunks_view(chunks@),
    {
        RtcpSourceDescriptionPacket { chunks }
    }

    /// The length of the body on the wire when it starts on a 32-bit
    /// boundary, in bytes.
    pub fn get_length(&self) -> (n: u32)
        requires
            chunks_aligned_len(self@) <= u32::MAX,
        ensures
            n == chunks_aligned_len(self@),
    {
        let ghost chunks = self@;
        let mut sum: u32 = 0;
        let mut i: usize = 0;
        proof {
            assert(chunks.skip(0) =~= chunks);
        }
        while i < self.chunks.len()
            invariant
                i <= self.chunks@.len(),
                chunks == self@,
                chunks_aligned_len(chunks) <= u32::MAX,
                sum + chunks_aligned_len(chunks.skip(i as int)) == chunks_aligned_len(chunks),
            decreases self.chunks@.len() - i,
        {
            proof {
                let here = chunks.skip(i as int);
                assert(here[0] == self.chunks@[i as int]@);
                assert(here.skip(1) =~= chunks.skip(i + 1));
                lemma_chunks_wire_len(here.skip(1), 0);
                lemma_chunk_wire_len(here[0], 0);
            }
            sum = sum + self.chunks[i].get_length();
            i = i + 1;
        }
        proof {
            assert(chunks.skip(i as int).len() == 0);
        }
        sum
    }

    /// The number of chunks, for the packet header's count field.
    pub fn get_chunks_length(&self) -> (n: u8)
        requires
            self@.len() <= u8::MAX,
        ensures
            n == self@.len(),
    {
        self.chunks.len() as u8
    }

    /// Writes the chunks at the cursor. Fails, with the buffer possibly
    /// written in part, exactly when they do not all fit.
    pub fn to_bytes(&self, out: &mut Octets) -> (r: Result<(), RtcpError>)
        requires
            old(out).wf(),
            chunks_fit(self@),
        ensures
            final(final(out).buf)@ == final(old(out).buf)@,
            match r {
                Ok(_) => {
                    &&& old(out).rest().len() >= chunks_wire(self@, old(out).pos()).len()
                    &&& final(out).wrote(old(out), chunks_wire(self@, old(out).pos()))
                },
                Err(e) => {
                    &&& old(out).rest().len() < chunks_wire(self@, old(out).pos()).len()
                    &&& e == short_buffer()
                    &&& final(out).stopped(old(out), chunks_wire(self@, old(out).pos()))
                },
            },
    {
        let ghost b0 = out.bytes();
        let ghost p = out.pos();
        let ghost chunks = self@;
        let ghost done: Seq<u8> = Seq::empty();
        let mut i: usize = 0;
        proof {
            assert(chunks.skip(0) =~= chunks);
            assert(done + chunks_wire(chunks, p) =~= chunks_wire(chunks, p));
            assert(spliced(b0, p, done) =~= b0);
        }
        while i < self.chunks.len()
            invariant
                i <= self.chunks@.len(),
                chunks == self@,
                chunks_fit(chunks),
                b0 == old(out).bytes(),
                p == old(out).pos(),
                old(out).wf(),
                done + chunks_wire(chunks.skip(i as int), p + done.len()) == chunks_wire(
                    chunks,
                    p,
                ),
                out.wrote(old(out), done),
                final(out.buf)@ == final(old(out).buf)@,
            decreases self.chunks@.len() - i,
        {
            let ghost here = chunks.skip(i as int);
            let ghost piece = here[0].wire(p + done.len());
            proof {
                assert(here[0] == self.chunks@[i as int]@);
                assert(here.skip(1) =~= chunks.skip(i + 1));
                assert(items_fit(chunks[i as int].items));
                assert((done + piece) + chunks_wire(
                    chunks.skip(i + 1),
                    p + done.len() + piece.len(),
                ) =~= done + (piece + chunks_wire(
                    chunks.skip(i + 1),
                    p + done.len() + piece.len(),
                )));
            }
            self.chunks[i].to_bytes(out)?;
            proof {
                lemma_spliced_twice(b0, p, done, piece);
                done = done + piece;
            }
            i = i + 1;
        }
        proof {
            assert(chunks.skip(i as int).len() == 0);
            assert(done =~= chunks_wire(chunks, p));
        }
        Ok(())
    }

    /// Reads `count` chunks at the cursor. Fails exactly when the buffer
    /// ends before the last of them does. Bytes behind the last chunk are
    /// left unread.
    pub fn from_bytes(bytes: &mut Octets, count: u8) -> (r: Result<
        RtcpSourceDescriptionPacket,
        RtcpError,
    >)
        requires
            old(bytes).wf(),
        ensures
            final(final(bytes).buf)@ == final(old(bytes).buf)@,
            final(bytes).wf(),
            final(bytes).bytes() == old(bytes).bytes(),
            final(bytes).pos() >= old(bytes).pos(),
            match r {
                Ok(p) => parse_chunks(old(bytes).bytes(), old(bytes).pos(), count as nat) == Ok::<
                    (Seq<SdesChunk>, int),
                    RtcpError,
                >((p@, final(bytes).pos())),
                Err(e) => parse_chunks(old(bytes).bytes(), old(bytes).pos(), count as nat)
                    == Err::<(Seq<SdesChunk>, int), RtcpError>(e),
            },
    {
        let ghost b = bytes.bytes();
        let ghost start = bytes.pos();
        let mut chunks: Vec<RtcpSourceDescriptionChunk> = Vec::new();
        let mut i: u8 = 0;
        proof {
            assert(chunks_view(chunks@) =~= Seq::empty());
            match parse_chunks(b, start, count as nat) {
                Ok((list, end)) => {
                    assert(chunks_view(chunks@) + list =~= list);
                },
                Err(_) => {},
            }
        }
        while i < count
            invariant
                i <= count,
                b == old(bytes).bytes(),
                start == old(bytes).pos(),
                start <= bytes.pos(),
                bytes.wf(),
                bytes.bytes() == b,
                with_front(
                    chunks_view(chunks@),
                    parse_chunks(b, bytes.pos(), (count - i) as nat),
                ) == parse_chunks(b, start, count as nat),
                final(bytes.buf)@ == final(old(bytes).buf)@,
            decreases count - i,
        {
            let ghost at = bytes.pos();
            let chunk = RtcpSourceDescriptionChunk::from_bytes(bytes)?;
            let ghost before = chunks_view(chunks@);
            chunks.push(chunk);
            proof {
                assert(chunks_view(chunks@) =~= before + seq![chunk@]);
                match parse_chunks(b, bytes.pos(), (count - i - 1) as nat) {
                    Ok((list, end)) => {
                        assert(before + (seq![chunk@] + list) =~= chunks_view(chunks@) + list);
                    },
                    Err(_) => {},
                }
            }
            i = i + 1;
        }
        proof {
            assert(chunks_view(chunks@) + Seq::<SdesChunk>::empty() =~= chunks_view(chunks@));
        }
        Ok(RtcpSourceDescriptionPacket { chunks })
    }
}

impl RtcpSourceDescriptionChunk {
    /// The length of the chunk on a 32-bit boundary, where the text of each
    /// of its items fits its length byte and that length is not above
    /// `limit`.
    pub fn checked_length(&self, limit: usize) -> (r: Option<usize>)
        requires
            limit <= MAX_BODY_LEN,
        ensures
            match r {
                Some(n) => items_fit(self@.items) && n == self@.aligned_len() && n <= limit,
                None => !items_fit(self@.items) || self@.aligned_len() > limit,
            },
    {
        let ghost items = self@.items;
        let mut length: usize = 5;
        let mut i: usize = 0;
        proof {
            assert(items.skip(0) =~= items);
            lemma_items_wire_len(items);
        }
        while i < self.items.len()
            invariant
                i <= self.items@.len(),
                items == self@.items,
                limit <= MAX_BODY_LEN,
                length <= limit + 5,
                length + items_wire(items.skip(i as int)).len() == self@.body().len(),
                forall|k: int| 0 <= k < i ==> (#[trigger] items[k]).data.len() <= 255,
            decreases self.items@.len() - i,
        {
            proof {
                let here = items.skip(i as int);
                lemma_items_wire_len(here);
                lemma_items_wire_len(here.skip(1));
                assert(here[0] == self.items@[i as int]@);
                assert(here[0] == items[i as int]);
                assert(here.skip(1) =~= items.skip(i + 1));
            }
            let n = self.items[i].data.len();
            if n > 255 {
                return None;
            }
            length = length + 2 + n;
            if length > limit {
                return None;
            }
            i = i + 1;
        }
        proof {
            assert(items.skip(i as int).len() == 0);
        }
        let aligned = length + get_padding(length);
        if aligned > limit {
            return None;
        }
        Some(aligned)
    }
}

impl RtcpSourceDescriptionPacket {
    /// Whether the packet can be written under a header: it has at most 31
    /// chunks, the text of each item fits its length byte, and the length in
    /// words fits sixteen bits.
    pub fn fits_header(&self) -> (ok: bool)
        ensures
            ok == (self@.len() <= 31 && chunks_fit(self@) && chunks_aligned_len(self@) / 4
                <= 0xFFFF),
    {
        if self.chunks.len() > 31 {
            return false;
        }
        let ghost chunks = self@;
        let mut sum: usize = 0;
        let mut i: usize = 0;
        proof {
            assert(chunks.skip(0) =~= chunks);
            lemma_chunks_wire_len(chunks, 0);
        }
        while i < self.chunks.len()
            invariant
                i <= self.chunks@.len(),
                chunks == self@,
                sum <= MAX_BODY_LEN,
                sum + chunks_aligned_len(chunks.skip(i as int)) == chunks_aligned_len(chunks),
                forall|k: int| 0 <= k < i ==> items_fit((#[trigger] chunks[k]).items),
            decreases self.chunks@.len() - i,
        {
            proof {
                let here = chunks.skip(i as int);
                assert(here[0] == self.chunks@[i as int]@);
                assert(here[0] == chunks[i as int]);
                assert(here.skip(1) =~= chunks.skip(i + 1));
                lemma_chunks_wire_len(here.skip(1), 0);
                lemma_chunk_wire_len(here[0], 0);
            }
            match self.chunks[i].checked_length(MAX_BODY_LEN - sum) {
                Some(n) => {
                    sum = sum + n;
                },
                None => {
                    return false;
                },
            }
            i = i + 1;
        }
        proof {
            assert(chunks.skip(i as int).len() == 0);
        }
        true
    }
}

} // verus!
