//! A bounds-checked cursor over a borrowed byte buffer, and the big-endian
//! layout of the integers it reads and writes.
//!
//! A cursor borrows its buffer, so what is written through it, or through a
//! cursor that `get_bytes` hands out, is in the caller's buffer when the
//! cursor is gone. Contracts speak of the buffer as a sequence of bytes,
//! `bytes()`, and of the position in it, `pos()`. The clause
//! `final(final(c).buf)@ == final(old(c).buf)@`, which every function that
//! takes a cursor by `&mut` ensures, says that the cursor still stands on
//! the buffer it stood on before the call.

use crate::OctetsError;
use vstd::arithmetic::div_mod::lemma_fundamental_div_mod_converse;
use vstd::prelude::*;

verus! {

/// The byte at position `i`.
pub open spec fn u8_at(b: Seq<u8>, i: int) -> u8 {
    b[i]
}

/// The 16-bit big-endian integer that starts at position `i`.
pub open spec fn u16_at(b: Seq<u8>, i: int) -> u16 {
    (b[i] * 0x100 + b[i + 1]) as u16
}

/// The 24-bit big-endian integer that starts at position `i`.
pub open spec fn u24_at(b: Seq<u8>, i: int) -> u32 {
    (b[i] * 0x1_0000 + b[i + 1] * 0x100 + b[i + 2]) as u32
}

/// The 32-bit big-endian integer that starts at position `i`.
pub open spec fn u32_at(b: Seq<u8>, i: int) -> u32 {
    (b[i] * 0x100_0000 + b[i + 1] * 0x1_0000 + b[i + 2] * 0x100 + b[i + 3]) as u32
}

/// The 64-bit big-endian integer that starts at position `i`.
pub open spec fn u64_at(b: Seq<u8>, i: int) -> u64 {
    (u32_at(b, i) * 0x1_0000_0000 + u32_at(b, i + 4)) as u64
}

/// The two bytes of `v`, most significant first.
pub open spec fn u16_octets(v: u16) -> Seq<u8> {
    seq![(v / 0x100) as u8, (v % 0x100) as u8]
}

/// The three low bytes of `v`, most significant first.
pub open spec fn u24_octets(v: u32) -> Seq<u8> {
    seq![((v / 0x1_0000) % 0x100) as u8, ((v / 0x100) % 0x100) as u8, (v % 0x100) as u8]
}

/// The four bytes of `v`, most significant first.
pub open spec fn u32_octets(v: u32) -> Seq<u8> {
    seq![
        (v / 0x100_0000) as u8,
        ((v / 0x1_0000) % 0x100) as u8,
        ((v / 0x100) % 0x100) as u8,
        (v % 0x100) as u8,
    ]
}

/// The eight bytes of `v`, most significant first.
pub open spec fn u64_octets(v: u64) -> Seq<u8> {
    u32_octets((v / 0x1_0000_0000) as u32) + u32_octets((v % 0x1_0000_0000) as u32)
}

/// `n` zero bytes.
pub open spec fn zeros(n: int) -> Seq<u8> {
    Seq::new(n as nat, |i: int| 0u8)
}

/// `buf` with the bytes from position `at` on replaced by `data`.
pub open spec fn spliced(buf: Seq<u8>, at: int, data: Seq<u8>) -> Seq<u8> {
    buf.subrange(0, at) + data + buf.subrange(at + data.len(), buf.len() as int)
}

/// Reading back what `u16_octets` wrote gives the value.
pub proof fn lemma_u16_octets_read(v: u16)
    ensures
        u16_octets(v).len() == 2,
        u16_at(u16_octets(v), 0) == v,
{
}

/// Writing what `u16_at` read gives the same two bytes.
pub proof fn lemma_u16_at_write(b: Seq<u8>, i: int)
    requires
        0 <= i,
        i + 2 <= b.len(),
    ensures
        u16_octets(u16_at(b, i)) == b.subrange(i, i + 2),
{
    let v = b[i] * 0x100 + b[i + 1];
    lemma_fundamental_div_mod_converse(v, 0x100, b[i] as int, b[i + 1] as int);
    assert(u16_octets(u16_at(b, i)) =~= b.subrange(i, i + 2));
}

/// Reading back what `u24_octets` wrote gives the low 24 bits of the value.
pub proof fn lemma_u24_octets_read(v: u32)
    ensures
        u24_octets(v).len() == 3,
        u24_at(u24_octets(v), 0) == v % 0x100_0000,
{
    let b0 = (v / 0x1_0000) % 0x100;
    let b1 = (v / 0x100) % 0x100;
    let b2 = v % 0x100;
    let low = v % 0x100_0000;
    assert(low == b0 * 0x1_0000 + b1 * 0x100 + b2);
}

/// The three bytes of a number below 2^24, from its big-endian digits.
proof fn lemma_digits3(b0: int, b1: int, b2: int)
    requires
        0 <= b0 < 0x100,
        0 <= b1 < 0x100,
        0 <= b2 < 0x100,
    ensures
        ({
            let v = b0 * 0x1_0000 + b1 * 0x100 + b2;
            &&& 0 <= v < 0x100_0000
            &&& (v / 0x1_0000) % 0x100 == b0
            &&& (v / 0x100) % 0x100 == b1
            &&& v % 0x100 == b2
        }),
{
    let v = b0 * 0x1_0000 + b1 * 0x100 + b2;
    lemma_fundamental_div_mod_converse(v, 0x1_0000, b0, b1 * 0x100 + b2);
    lemma_fundamental_div_mod_converse(v, 0x100, b0 * 0x100 + b1, b2);
    lemma_fundamental_div_mod_converse(b0 * 0x100 + b1, 0x100, b0, b1);
    lemma_fundamental_div_mod_converse(b0, 0x100, 0, b0);
}

/// The four bytes of a 32-bit number, from its big-endian digits.
proof fn lemma_digits4(b0: int, b1: int, b2: int, b3: int)
    requires
        0 <= b0 < 0x100,
        0 <= b1 < 0x100,
        0 <= b2 < 0x100,
        0 <= b3 < 0x100,
    ensures
        ({
            let v = b0 * 0x100_0000 + b1 * 0x1_0000 + b2 * 0x100 + b3;
            &&& 0 <= v < 0x1_0000_0000
            &&& v / 0x100_0000 == b0
            &&& (v / 0x1_0000) % 0x100 == b1
            &&& (v / 0x100) % 0x100 == b2
            &&& v % 0x100 == b3
        }),
{
    let v = b0 * 0x100_0000 + b1 * 0x1_0000 + b2 * 0x100 + b3;
    lemma_fundamental_div_mod_converse(v, 0x100_0000, b0, b1 * 0x1_0000 + b2 * 0x100 + b3);
    lemma_fundamental_div_mod_converse(v, 0x1_0000, b0 * 0x100 + b1, b2 * 0x100 + b3);
    lemma_fundamental_div_mod_converse(b0 * 0x100 + b1, 0x100, b0, b1);
    lemma_fundamental_div_mod_converse(v, 0x100, b0 * 0x1_0000 + b1 * 0x100 + b2, b3);
    lemma_fundamental_div_mod_converse(b0 * 0x1_0000 + b1 * 0x100 + b2, 0x100, b0 * 0x100 + b1, b2);
}

/// Writing what `u24_at` read gives the same three bytes.
pub proof fn lemma_u24_at_write(b: Seq<u8>, i: int)
    requires
        0 <= i,
        i + 3 <= b.len(),
    ensures
        u24_at(b, i) < 0x100_0000,
        u24_octets(u24_at(b, i)) == b.subrange(i, i + 3),
{
    lemma_digits3(b[i] as int, b[i + 1] as int, b[i + 2] as int);
    assert(u24_octets(u24_at(b, i)) =~= b.subrange(i, i + 3));
}

/// Reading back what `u32_octets` wrote gives the value.
pub proof fn lemma_u32_octets_read(v: u32)
    ensures
        u32_octets(v).len() == 4,
        u32_at(u32_octets(v), 0) == v,
{
    let b0 = v / 0x100_0000;
    let b1 = (v / 0x1_0000) % 0x100;
    let b2 = (v / 0x100) % 0x100;
    let b3 = v % 0x100;
    assert(v == b0 * 0x100_0000 + b1 * 0x1_0000 + b2 * 0x100 + b3);
}

/// Writing what `u32_at` read gives the same four bytes.
pub proof fn lemma_u32_at_write(b: Seq<u8>, i: int)
    requires
        0 <= i,
        i + 4 <= b.len(),
    ensures
        u32_octets(u32_at(b, i)) == b.subrange(i, i + 4),
{
    lemma_digits4(b[i] as int, b[i + 1] as int, b[i + 2] as int, b[i + 3] as int);
    assert(u32_octets(u32_at(b, i)) =~= b.subrange(i, i + 4));
}

/// Writing what `u64_at` read gives the same eight bytes.
pub proof fn lemma_u64_at_write(b: Seq<u8>, i: int)
    requires
        0 <= i,
        i + 8 <= b.len(),
    ensures
        u64_octets(u64_at(b, i)) == b.subrange(i, i + 8),
{
    lemma_u32_at_write(b, i);
    lemma_u32_at_write(b, i + 4);
    let v = u64_at(b, i);
    lemma_fundamental_div_mod_converse(
        u32_at(b, i) * 0x1_0000_0000 + u32_at(b, i + 4),
        0x1_0000_0000,
        u32_at(b, i) as int,
        u32_at(b, i + 4) as int,
    );
    assert((v / 0x1_0000_0000) as u32 == u32_at(b, i));
    assert((v % 0x1_0000_0000) as u32 == u32_at(b, i + 4));
    assert(u64_octets(v) =~= b.subrange(i, i + 8));
}

/// Two writes in a row are one write of the two pieces joined.
pub proof fn lemma_spliced_twice(buf: Seq<u8>, at: int, first: Seq<u8>, second: Seq<u8>)
    requires
        0 <= at,
        at + first.len() + second.len() <= buf.len(),
    ensures
        spliced(spliced(buf, at, first), at + first.len(), second) == spliced(
            buf,
            at,
            first + second,
        ),
{
    assert(spliced(spliced(buf, at, first), at + first.len(), second) =~= spliced(
        buf,
        at,
        first + second,
    ));
}

/// The wire form of a list of 32-bit words: each word's four bytes, in order.
pub open spec fn u32s_octets(words: Seq<u32>) -> Seq<u8>
    decreases words.len(),
{
    if words.len() == 0 {
        Seq::empty()
    } else {
        u32s_octets(words.drop_last()) + u32_octets(words.last())
    }
}

/// The `n` 32-bit big-endian words that start at position `at`.
pub open spec fn u32s_at(b: Seq<u8>, at: int, n: nat) -> Seq<u32> {
    Seq::new(n, |k: int| u32_at(b, at + 4 * k))
}

/// A list of words takes four bytes for each word.
pub proof fn lemma_u32s_octets_len(words: Seq<u32>)
    ensures
        u32s_octets(words).len() == 4 * words.len(),
    decreases words.len(),
{
    if words.len() > 0 {
        lemma_u32s_octets_len(words.drop_last());
    }
}

/// The wire form of the first `k` words is the start of the wire form of
/// all of them.
pub proof fn lemma_u32s_octets_prefix(words: Seq<u32>, k: int)
    requires
        0 <= k <= words.len(),
    ensures
        u32s_octets(words.take(k)) == u32s_octets(words).take(4 * k),
    decreases words.len(),
{
    lemma_u32s_octets_len(words);
    if k == words.len() {
        assert(words.take(k) =~= words);
        assert(u32s_octets(words).take(4 * k) =~= u32s_octets(words));
    } else {
        let front = words.drop_last();
        lemma_u32s_octets_prefix(front, k);
        lemma_u32s_octets_len(front);
        assert(words.take(k) =~= front.take(k));
        assert(u32s_octets(words).take(4 * k) =~= u32s_octets(front).take(4 * k));
    }
}

/// Writing the words that were read gives the bytes they were read from.
pub proof fn lemma_u32s_at_write(b: Seq<u8>, at: int, n: nat)
    requires
        0 <= at,
        at + 4 * n <= b.len(),
    ensures
        u32s_octets(u32s_at(b, at, n)) == b.subrange(at, at + 4 * n),
    decreases n,
{
    let words = u32s_at(b, at, n);
    if n == 0 {
        assert(u32s_octets(words) =~= b.subrange(at, at + 4 * n));
    } else {
        let m = (n - 1) as nat;
        assert(words.drop_last() =~= u32s_at(b, at, m));
        lemma_u32s_at_write(b, at, m);
        lemma_u32_at_write(b, at + 4 * m);
        assert(words.last() == u32_at(b, at + 4 * m));
        assert(b.subrange(at, at + 4 * m) + b.subrange(at + 4 * m, at + 4 * m + 4)
            =~= b.subrange(at, at + 4 * n));
    }
}

/// Reading back the words that were written gives the same words.
pub proof fn lemma_u32s_octets_read(words: Seq<u32>)
    ensures
        u32s_at(u32s_octets(words), 0, words.len()) == words,
    decreases words.len(),
{
    lemma_u32s_octets_len(words);
    if words.len() > 0 {
        let front = words.drop_last();
        lemma_u32s_octets_read(front);
        lemma_u32s_octets_len(front);
        lemma_u32_octets_read(words.last());
        let w = u32s_octets(words);
        let wf = u32s_octets(front);
        let wl = u32_octets(words.last());
        assert forall|k: int| 0 <= k < words.len() implies u32_at(w, 4 * k) == words[k] by {
            if k < front.len() {
                assert(u32s_at(wf, 0, front.len())[k] == front[k]);
                assert(u32_at(wf, 4 * k) == front[k]);
                assert(w[4 * k] == wf[4 * k]);
                assert(w[4 * k + 1] == wf[4 * k + 1]);
                assert(w[4 * k + 2] == wf[4 * k + 2]);
                assert(w[4 * k + 3] == wf[4 * k + 3]);
            } else {
                assert(w[4 * k] == wl[0]);
                assert(w[4 * k + 1] == wl[1]);
                assert(w[4 * k + 2] == wl[2]);
                assert(w[4 * k + 3] == wl[3]);
            }
        }
        assert(u32s_at(w, 0, words.len()) =~= words);
    } else {
        assert(u32s_at(u32s_octets(words), 0, words.len()) =~= words);
    }
}

/// Where the two bytes from position `at` are those of `v`, reading there
/// gives `v`.
pub proof fn lemma_u16_read_at(b: Seq<u8>, at: int, v: u16)
    requires
        0 <= at,
        at + 2 <= b.len(),
        b.subrange(at, at + 2) == u16_octets(v),
    ensures
        u16_at(b, at) == v,
{
    lemma_u16_octets_read(v);
    let w = b.subrange(at, at + 2);
    assert(w[0] == b[at] && w[1] == b[at + 1]);
}

/// Where the three bytes from position `at` are those of `v`, reading there
/// gives the low 24 bits of `v`.
pub proof fn lemma_u24_read_at(b: Seq<u8>, at: int, v: u32)
    requires
        0 <= at,
        at + 3 <= b.len(),
        b.subrange(at, at + 3) == u24_octets(v),
    ensures
        u24_at(b, at) == v % 0x100_0000,
{
    lemma_u24_octets_read(v);
    let w = b.subrange(at, at + 3);
    assert(w[0] == b[at] && w[1] == b[at + 1] && w[2] == b[at + 2]);
}

/// Where the four bytes from position `at` are those of `v`, reading there
/// gives `v`.
pub proof fn lemma_u32_read_at(b: Seq<u8>, at: int, v: u32)
    requires
        0 <= at,
        at + 4 <= b.len(),
        b.subrange(at, at + 4) == u32_octets(v),
    ensures
        u32_at(b, at) == v,
{
    lemma_u32_octets_read(v);
    let w = b.subrange(at, at + 4);
    assert(w[0] == b[at] && w[1] == b[at + 1] && w[2] == b[at + 2] && w[3] == b[at + 3]);
}

/// Where the eight bytes from position `at` are those of `v`, reading there
/// gives `v`.
pub proof fn lemma_u64_read_at(b: Seq<u8>, at: int, v: u64)
    requires
        0 <= at,
        at + 8 <= b.len(),
        b.subrange(at, at + 8) == u64_octets(v),
    ensures
        u64_at(b, at) == v,
{
    let hi = (v / 0x1_0000_0000) as u32;
    let lo = (v % 0x1_0000_0000) as u32;
    assert(b.subrange(at, at + 4) =~= u32_octets(hi)) by {
        assert(b.subrange(at, at + 4) =~= b.subrange(at, at + 8).subrange(0, 4));
    }
    assert(b.subrange(at + 4, at + 8) =~= u32_octets(lo)) by {
        assert(b.subrange(at + 4, at + 8) =~= b.subrange(at, at + 8).subrange(4, 8));
    }
    lemma_u32_read_at(b, at, hi);
    lemma_u32_read_at(b, at + 4, lo);
}

/// Where the bytes from position `at` are those of `words`, reading as many
/// words there gives `words`.
pub proof fn lemma_u32s_read_at(b: Seq<u8>, at: int, words: Seq<u32>)
    requires
        0 <= at,
        at + 4 * words.len() <= b.len(),
        b.subrange(at, at + 4 * words.len()) == u32s_octets(words),
    ensures
        u32s_at(b, at, words.len()) == words,
{
    lemma_u32s_octets_read(words);
    lemma_u32s_octets_len(words);
    let w = b.subrange(at, at + 4 * words.len());
    assert forall|k: int| 0 <= k < words.len() implies u32_at(b, at + 4 * k) == words[k] by {
        assert(u32s_at(w, 0, words.len())[k] == words[k]);
        assert(w[4 * k] == b[at + 4 * k]);
        assert(w[4 * k + 1] == b[at + 4 * k + 1]);
        assert(w[4 * k + 2] == b[at + 4 * k + 2]);
        assert(w[4 * k + 3] == b[at + 4 * k + 3]);
    }
    assert(u32s_at(b, at, words.len()) =~= words);
}

/// A cursor over a borrowed byte buffer. Reads and writes start at `off` and
/// move it forward; none of them reaches past the end of the buffer.
#[derive(Debug, PartialEq, Eq)]
pub struct Octets<'a> {
    pub buf: &'a mut [u8],
    pub off: usize,
}

impl<'a> Octets<'a> {
    /// The whole buffer, read or not.
    pub open spec fn bytes(&self) -> Seq<u8> {
        self.buf@
    }

    /// The cursor's position, counted from the start of the buffer.
    pub open spec fn pos(&self) -> int {
        self.off as int
    }

    /// The position never passes the end of the buffer.
    pub open spec fn wf(&self) -> bool {
        self.off <= self.buf@.len()
    }

    /// The bytes from the position to the end of the buffer.
    pub open spec fn rest(&self) -> Seq<u8> {
        self.buf@.skip(self.off as int)
    }

    /// This cursor is `pre` moved forward by `n` bytes, the buffer as it was.
    pub open spec fn advanced(&self, pre: &Octets, n: int) -> bool {
        &&& self.wf()
        &&& self.bytes() == pre.bytes()
        &&& self.pos() == pre.pos() + n
    }

    /// This cursor is `pre` after `data` was written at its position.
    pub open spec fn wrote(&self, pre: &Octets, data: Seq<u8>) -> bool {
        &&& self.wf()
        &&& pre.pos() + data.len() <= pre.bytes().len()
        &&& self.bytes().len() == pre.bytes().len()
        &&& self.bytes() == spliced(pre.bytes(), pre.pos(), data)
        &&& self.pos() == pre.pos() + data.len()
    }

    /// This cursor is `pre` after a write of `data` that stopped part of the
    /// way: the first bytes of `data`, as many as the position has moved,
    /// stand where they belong, and the rest of the buffer is as it was.
    pub open spec fn stopped(&self, pre: &Octets, data: Seq<u8>) -> bool {
        &&& self.wf()
        &&& self.bytes().len() == pre.bytes().len()
        &&& pre.pos() <= self.pos() <= pre.pos() + data.len()
        &&& forall|i: int|
            0 <= i < self.bytes().len() ==> self.bytes()[i] == if pre.pos() <= i < self.pos() {
                data[i - pre.pos()]
            } else {
                pre.bytes()[i]
            }
    }

    /// A cursor at the start of `buf`.
    pub fn with_slice(buf: &'a mut [u8]) -> (r: Octets<'a>)
        ensures
            r.wf(),
            r.pos() == 0,
            r.bytes() == old(buf)@,
            final(buf)@ == final(r.buf)@,
    {
        Octets { buf, off: 0 }
    }

    /// The length of the whole buffer.
    pub fn len(&self) -> (n: usize)
        ensures
            n == self.bytes().len(),
    {
        self.buf.len()
    }

    /// The cursor's position.
    pub fn off(&self) -> (n: usize)
        ensures
            n == self.pos(),
    {
        self.off
    }

    /// How many bytes are left between the position and the end.
    pub fn cap(&self) -> (n: usize)
        requires
            self.wf(),
        ensures
            n == self.rest().len(),
            n == self.bytes().len() - self.pos(),
    {
        self.buf.len() - self.off
    }

    /// The byte at `index`, counted from the start of the buffer; the
    /// position stays where it is.
    pub fn get_val(&self, index: usize) -> (r: Result<u8, OctetsError>)
        ensures
            match r {
                Ok(v) => index < self.bytes().len() && v == self.bytes()[index as int],
                Err(e) => index >= self.bytes().len() && e == OctetsError::BufferTooShort,
            },
    {
        if index >= self.buf.len() {
            return Err(OctetsError::BufferTooShort);
        }
        Ok(self.buf[index])
    }

    /// Reads one byte.
    pub fn get_u8(&mut self) -> (r: Result<u8, OctetsError>)
        requires
            old(self).wf(),
        ensures
            final(self).wf(),
            final(self).bytes() == old(self).bytes(),
            final(final(self).buf)@ == final(old(self).buf)@,
            match r {
                Ok(v) => {
                    &&& old(self).rest().len() >= 1
                    &&& v == u8_at(old(self).bytes(), old(self).pos())
                    &&& final(self).pos() == old(self).pos() + 1
                },
                Err(e) => {
                    &&& old(self).rest().len() < 1
                    &&& e == OctetsError::BufferTooShort
                    &&& final(self).pos() == old(self).pos()
                },
            },
    {
        if self.buf.len() - self.off < 1 {
            return Err(OctetsError::BufferTooShort);
        }
        let v = self.buf[self.off];
        self.off = self.off + 1;
        Ok(v)
    }

    /// Reads a 16-bit big-endian integer.
    pub fn get_u16(&mut self) -> (r: Result<u16, OctetsError>)
        requires
            old(self).wf(),
        ensures
            final(self).wf(),
            final(self).bytes() == old(self).bytes(),
            final(final(self).buf)@ == final(old(self).buf)@,
            match r {
                Ok(v) => {
                    &&& old(self).rest().len() >= 2
                    &&& v == u16_at(old(self).bytes(), old(self).pos())
                    &&& final(self).pos() == old(self).pos() + 2
                },
                Err(e) => {
                    &&& old(self).rest().len() < 2
                    &&& e == OctetsError::BufferTooShort
                    &&& final(self).pos() == old(self).pos()
                },
            },
    {
        if self.buf.len() - self.off < 2 {
            return Err(OctetsError::BufferTooShort);
        }
        let b0: u16 = self.buf[self.off] as u16;
        let b1: u16 = self.buf[self.off + 1] as u16;
        self.off = self.off + 2;
        Ok(b0 * 0x100 + b1)
    }

    /// Reads a 24-bit big-endian integer.
    pub fn get_u24(&mut self) -> (r: Result<u32, OctetsError>)
        requires
            old(self).wf(),
        ensures
            final(self).wf(),
            final(self).bytes() == old(self).bytes(),
            final(final(self).buf)@ == final(old(self).buf)@,
            match r {
                Ok(v) => {
                    &&& old(self).rest().len() >= 3
                    &&& v == u24_at(old(self).bytes(), old(self).pos())
                    &&& final(self).pos() == old(self).pos() + 3
                },
                Err(e) => {
                    &&& old(self).rest().len() < 3
                    &&& e == OctetsError::BufferTooShort
                    &&& final(self).pos() == old(self).pos()
                },
            },
    {
        if self.buf.len() - self.off < 3 {
            return Err(OctetsError::BufferTooShort);
        }
        let b0: u32 = self.buf[self.off] as u32;
        let b1: u32 = self.buf[self.off + 1] as u32;
        let b2: u32 = self.buf[self.off + 2] as u32;
        self.off = self.off + 3;
        Ok(b0 * 0x1_0000 + b1 * 0x100 + b2)
    }

    /// Reads a 32-bit big-endian integer.
    pub fn get_u32(&mut self) -> (r: Result<u32, OctetsError>)
        requires
            old(self).wf(),
        ensures
            final(self).wf(),
            final(self).bytes() == old(self).bytes(),
            final(final(self).buf)@ == final(old(self).buf)@,
            match r {
                Ok(v) => {
                    &&& old(self).rest().len() >= 4
                    &&& v == u32_at(old(self).bytes(), old(self).pos())
                    &&& final(self).pos() == old(self).pos() + 4
                },
                Err(e) => {
                    &&& old(self).rest().len() < 4
                    &&& e == OctetsError::BufferTooShort
                    &&& final(self).pos() == old(self).pos()
                },
            },
    {
        if self.buf.len() - self.off < 4 {
            return Err(OctetsError::BufferTooShort);
        }
        let b0: u32 = self.buf[self.off] as u32;
        let b1: u32 = self.buf[self.off + 1] as u32;
        let b2: u32 = self.buf[self.off + 2] as u32;
        let b3: u32 = self.buf[self.off + 3] as u32;
        self.off = self.off + 4;
        Ok(b0 * 0x100_0000 + b1 * 0x1_0000 + b2 * 0x100 + b3)
    }

    /// Reads a 64-bit big-endian integer.
    pub fn get_u64(&mut self) -> (r: Result<u64, OctetsError>)
        requires
            old(self).wf(),
        ensures
            final(self).wf(),
            final(self).bytes() == old(self).bytes(),
            final(final(self).buf)@ == final(old(self).buf)@,
            match r {
                Ok(v) => {
                    &&& old(self).rest().len() >= 8
                    &&& v == u64_at(old(self).bytes(), old(self).pos())
                    &&& final(self).pos() == old(self).pos() + 8
                },
                Err(e) => {
                    &&& old(self).rest().len() < 8
                    &&& e == OctetsError::BufferTooShort
                    &&& final(self).pos() == old(self).pos()
                },
            },
    {
        if self.buf.len() - self.off < 8 {
            return Err(OctetsError::BufferTooShort);
        }
        let hi = self.get_u32()?;
        let lo = self.get_u32()?;
        Ok((hi as u64) * 0x1_0000_0000 + (lo as u64))
    }

    /// Hands out the next `len` bytes as a cursor of their own and moves past
    /// them. What is written through the new cursor lands in this buffer:
    /// once the new cursor is gone, this buffer is what it was with those
    /// bytes as the new cursor left them.
    pub fn get_bytes<'b>(&'b mut self, len: usize) -> (r: Result<Octets<'b>, OctetsError>)
        requires
            old(self).wf(),
        ensures
            final(final(self).buf)@ == final(old(self).buf)@,
            match r {
                Ok(sub) => {
                    &&& old(self).rest().len() >= len
                    &&& sub.wf()
                    &&& sub.pos() == 0
                    &&& sub.bytes() == old(self).bytes().subrange(
                        old(self).pos(),
                        old(self).pos() + len,
                    )
                    &&& final(self).pos() == old(self).pos() + len
                    &&& final(self).bytes() == old(self).bytes().take(old(self).pos())
                        + final(sub.buf)@
                        + old(self).bytes().skip(old(self).pos() + len)
                },
                Err(e) => {
                    &&& old(self).rest().len() < len
                    &&& e == OctetsError::BufferTooShort
                    &&& final(self).pos() == old(self).pos()
                    &&& final(self).bytes() == old(self).bytes()
                },
            },
    {
        if self.buf.len() - self.off < len {
            return Err(OctetsError::BufferTooShort);
        }
        let start = self.off;
        self.off = self.off + len;
        let (_, tail) = self.buf.split_at_mut(start);
        let (region, _) = tail.split_at_mut(len);
        proof {
            let whole = old(self).bytes();
            assert(whole.subrange(0, start as int) =~= whole.take(start as int));
            assert(whole.subrange(start as int, whole.len() as int).subrange(
                len as int,
                whole.len() - start,
            ) =~= whole.skip(start + len));
            assert(whole.subrange(start as int, whole.len() as int).subrange(0, len as int)
                =~= whole.subrange(start as int, start + len));
        }
        Ok(Octets { buf: region, off: 0 })
    }

    /// A copy of the bytes from the position to the end.
    pub fn to_vec(&self) -> (v: Vec<u8>)
        requires
            self.wf(),
        ensures
            v@ == self.rest(),
    {
        let mut v: Vec<u8> = Vec::new();
        let mut i: usize = self.off;
        while i < self.buf.len()
            invariant
                self.off <= i <= self.buf@.len(),
                v@ == self.buf@.subrange(self.off as int, i as int),
            decreases self.buf@.len() - i,
        {
            v.push(self.buf[i]);
            i = i + 1;
        }
        assert(v@ =~= self.rest());
        v
    }

    /// Writes one byte.
    pub fn put_u8(&mut self, v: u8) -> (r: Result<(), OctetsError>)
        requires
            old(self).wf(),
        ensures
            final(self).wf(),
            final(final(self).buf)@ == final(old(self).buf)@,
            match r {
                Ok(_) => {
                    &&& old(self).rest().len() >= 1
                    &&& final(self).bytes() == spliced(old(self).bytes(), old(self).pos(), seq![v])
                    &&& final(self).pos() == old(self).pos() + 1
                },
                Err(e) => {
                    &&& old(self).rest().len() < 1
                    &&& e == OctetsError::BufferTooShort
                    &&& final(self).bytes() == old(self).bytes()
                    &&& final(self).pos() == old(self).pos()
                },
            },
    {
        if self.buf.len() - self.off < 1 {
            return Err(OctetsError::BufferTooShort);
        }
        self.buf[self.off] = v;
        self.off = self.off + 1;
        assert(self.buf@ =~= spliced(old(self).bytes(), old(self).pos(), seq![v]));
        Ok(())
    }

    /// Writes a 16-bit integer, most significant byte first.
    pub fn put_u16(&mut self, v: u16) -> (r: Result<(), OctetsError>)
        requires
            old(self).wf(),
        ensures
            final(self).wf(),
            final(final(self).buf)@ == final(old(self).buf)@,
            match r {
                Ok(_) => {
                    &&& old(self).rest().len() >= 2
                    &&& final(self).bytes() == spliced(
                        old(self).bytes(),
                        old(self).pos(),
                        u16_octets(v),
                    )
                    &&& final(self).pos() == old(self).pos() + 2
                },
                Err(e) => {
                    &&& old(self).rest().len() < 2
                    &&& e == OctetsError::BufferTooShort
                    &&& final(self).bytes() == old(self).bytes()
                    &&& final(self).pos() == old(self).pos()
                },
            },
    {
        if self.buf.len() - self.off < 2 {
            return Err(OctetsError::BufferTooShort);
        }
        self.buf[self.off] = (v / 0x100) as u8;
        self.buf[self.off + 1] = (v % 0x100) as u8;
        self.off = self.off + 2;
        assert(self.buf@ =~= spliced(old(self).bytes(), old(self).pos(), u16_octets(v)));
        Ok(())
    }

    /// Writes the low 24 bits of `v`, most significant byte first.
    pub fn put_u24(&mut self, v: u32) -> (r: Result<(), OctetsError>)
        requires
            old(self).wf(),
        ensures
            final(self).wf(),
            final(final(self).buf)@ == final(old(self).buf)@,
            match r {
                Ok(_) => {
                    &&& old(self).rest().len() >= 3
                    &&& final(self).bytes() == spliced(
                        old(self).bytes(),
                        old(self).pos(),
                        u24_octets(v),
                    )
                    &&& final(self).pos() == old(self).pos() + 3
                },
                Err(e) => {
                    &&& old(self).rest().len() < 3
                    &&& e == OctetsError::BufferTooShort
                    &&& final(self).bytes() == old(self).bytes()
                    &&& final(self).pos() == old(self).pos()
                },
            },
    {
        if self.buf.len() - self.off < 3 {
            return Err(OctetsError::BufferTooShort);
        }
        self.buf[self.off] = ((v / 0x1_0000) % 0x100) as u8;
        self.buf[self.off + 1] = ((v / 0x100) % 0x100) as u8;
        self.buf[self.off + 2] = (v % 0x100) as u8;
        self.off = self.off + 3;
        assert(self.buf@ =~= spliced(old(self).bytes(), old(self).pos(), u24_octets(v)));
        Ok(())
    }

    /// Writes a 32-bit integer, most significant byte first.
    pub fn put_u32(&mut self, v: u32) -> (r: Result<(), OctetsError>)
        requires
            old(self).wf(),
        ensures
            final(self).wf(),
            final(final(self).buf)@ == final(old(self).buf)@,
            match r {
                Ok(_) => {
                    &&& old(self).rest().len() >= 4
                    &&& final(self).bytes() == spliced(
                        old(self).bytes(),
                        old(self).pos(),
                        u32_octets(v),
                    )
                    &&& final(self).pos() == old(self).pos() + 4
                },
                Err(e) => {
                    &&& old(self).rest().len() < 4
                    &&& e == OctetsError::BufferTooShort
                    &&& final(self).bytes() == old(self).bytes()
                    &&& final(self).pos() == old(self).pos()
                },
            },
    {
        if self.buf.len() - self.off < 4 {
            return Err(OctetsError::BufferTooShort);
        }
        self.buf[self.off] = (v / 0x100_0000) as u8;
        self.buf[self.off + 1] = ((v / 0x1_0000) % 0x100) as u8;
        self.buf[self.off + 2] = ((v / 0x100) % 0x100) as u8;
        self.buf[self.off + 3] = (v % 0x100) as u8;
        self.off = self.off + 4;
        assert(self.buf@ =~= spliced(old(self).bytes(), old(self).pos(), u32_octets(v)));
        Ok(())
    }

    /// Writes a 64-bit integer, most significant byte first.
    pub fn put_u64(&mut self, v: u64) -> (r: Result<(), OctetsError>)
        requires
            old(self).wf(),
        ensures
            final(self).wf(),
            final(final(self).buf)@ == final(old(self).buf)@,
            match r {
                Ok(_) => {
                    &&& old(self).rest().len() >= 8
                    &&& final(self).bytes() == spliced(
                        old(self).bytes(),
                        old(self).pos(),
                        u64_octets(v),
                    )
                    &&& final(self).pos() == old(self).pos() + 8
                },
                Err(e) => {
                    &&& old(self).rest().len() < 8
                    &&& e == OctetsError::BufferTooShort
                    &&& final(self).bytes() == old(self).bytes()
                    &&& final(self).pos() == old(self).pos()
                },
            },
    {
        if self.buf.len() - self.off < 8 {
            return Err(OctetsError::BufferTooShort);
        }
        let hi: u32 = (v / 0x1_0000_0000) as u32;
        let lo: u32 = (v % 0x1_0000_0000) as u32;
        self.put_u32(hi)?;
        self.put_u32(lo)?;
        proof {
            lemma_spliced_twice(
                old(self).bytes(),
                old(self).pos(),
                u32_octets(hi),
                u32_octets(lo),
            );
        }
        Ok(())
    }

    /// Writes all of `v`, or nothing where it does not fit.
    pub fn put_bytes(&mut self, v: &[u8]) -> (r: Result<(), OctetsError>)
        requires
            old(self).wf(),
        ensures
            final(self).wf(),
            final(final(self).buf)@ == final(old(self).buf)@,
            match r {
                Ok(_) => {
                    &&& old(self).rest().len() >= v@.len()
                    &&& final(self).bytes() == spliced(old(self).bytes(), old(self).pos(), v@)
                    &&& final(self).pos() == old(self).pos() + v@.len()
                },
                Err(e) => {
                    &&& old(self).rest().len() < v@.len()
                    &&& e == OctetsError::BufferTooShort
                    &&& final(self).bytes() == old(self).bytes()
                    &&& final(self).pos() == old(self).pos()
                },
            },
    {
        let n: usize = v.len();
        if self.buf.len() - self.off < n {
            return Err(OctetsError::BufferTooShort);
        }
        let start: usize = self.off;
        let mut i: usize = 0;
        while i < n
            invariant
                n == v@.len(),
                start == old(self).off,
                self.off == start,
                start + n <= self.buf@.len(),
                start + n <= usize::MAX,
                i <= n,
                self.buf@.len() == old(self).bytes().len(),
                self.buf@ == spliced(old(self).bytes(), start as int, v@.take(i as int)),
                final(self.buf)@ == final(old(self).buf)@,
            decreases n - i,
        {
            self.buf[start + i] = v[i];
            i = i + 1;
            assert(self.buf@ =~= spliced(old(self).bytes(), start as int, v@.take(i as int)));
        }
        self.off = start + n;
        assert(v@.take(n as int) =~= v@);
        Ok(())
    }
}

/// Writes the words one after the other. Fails, with the buffer possibly
/// written in part, exactly when they do not all fit.
pub fn write_u32s(words: &Vec<u32>, out: &mut Octets) -> (r: Result<(), OctetsError>)
    requires
        old(out).wf(),
    ensures
        final(final(out).buf)@ == final(old(out).buf)@,
        match r {
            Ok(_) => {
                &&& old(out).rest().len() >= 4 * words@.len()
                &&& final(out).wrote(old(out), u32s_octets(words@))
            },
            Err(e) => {
                &&& old(out).rest().len() < 4 * words@.len()
                &&& e == OctetsError::BufferTooShort
                &&& final(out).stopped(old(out), u32s_octets(words@))
            },
        },
{
    let ghost b0 = out.bytes();
    let ghost p = out.pos();
    let mut i: usize = 0;
    assert(spliced(b0, p, u32s_octets(words@.take(0))) =~= b0);
    proof {
        lemma_u32s_octets_len(words@);
    }
    while i < words.len()
        invariant
            i <= words@.len(),
            u32s_octets(words@).len() == 4 * words@.len(),
            b0 == old(out).bytes(),
            p == old(out).pos(),
            old(out).wf(),
            out.wrote(old(out), u32s_octets(words@.take(i as int))),
            u32s_octets(words@.take(i as int)).len() == 4 * i,
            final(out.buf)@ == final(old(out).buf)@,
        decreases words@.len() - i,
    {
        let ghost done = u32s_octets(words@.take(i as int));
        let ghost piece = u32_octets(words@[i as int]);
        proof {
            lemma_u32s_octets_prefix(words@, i as int);
        }
        out.put_u32(words[i])?;
        proof {
            let next = words@.take(i + 1);
            assert(next.drop_last() =~= words@.take(i as int));
            assert(next.last() == words@[i as int]);
            assert(u32s_octets(next) == done + piece);
            lemma_spliced_twice(b0, p, done, piece);
        }
        i = i + 1;
    }
    assert(words@.take(i as int) =~= words@);
    Ok(())
}

/// Reads `count` words one after the other. Fails exactly when fewer than
/// `4 * count` bytes are left.
pub fn read_u32s(bytes: &mut Octets, count: usize) -> (r: Result<Vec<u32>, OctetsError>)
    requires
        old(bytes).wf(),
    ensures
        final(final(bytes).buf)@ == final(old(bytes).buf)@,
        final(bytes).wf(),
        final(bytes).bytes() == old(bytes).bytes(),
        match r {
            Ok(words) => {
                &&& old(bytes).rest().len() >= 4 * count
                &&& words@ == u32s_at(old(bytes).bytes(), old(bytes).pos(), count as nat)
                &&& final(bytes).pos() == old(bytes).pos() + 4 * count
            },
            Err(e) => {
                &&& old(bytes).rest().len() < 4 * count
                &&& e == OctetsError::BufferTooShort
                &&& final(bytes).pos() >= old(bytes).pos()
            },
        },
{
    let mut words: Vec<u32> = Vec::new();
    let mut i: usize = 0;
    while i < count
        invariant
            i <= count,
            bytes.advanced(old(bytes), 4 * i),
            words@ == u32s_at(old(bytes).bytes(), old(bytes).pos(), i as nat),
            final(bytes.buf)@ == final(old(bytes).buf)@,
        decreases count - i,
    {
        let word = bytes.get_u32()?;
        words.push(word);
        i = i + 1;
        assert(words@ =~= u32s_at(old(bytes).bytes(), old(bytes).pos(), i as nat));
    }
    Ok(words)
}

} // verus!
