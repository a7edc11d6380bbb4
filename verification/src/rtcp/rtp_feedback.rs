//! Transport-layer feedback in its generic NACK form: two identifiers and a
//! list of lost sequence numbers, packed on the wire as pairs of a packet
//! identifier and a bitmask of the sixteen numbers that follow it.

use crate::octets::{
    lemma_spliced_twice, lemma_u16_at_write, lemma_u16_read_at, lemma_u32_at_write,
    lemma_u32_read_at, u16_at, u16_octets, u32_at, u32_octets, Octets,
};
use crate::rtcp::{lift, short_buffer, RtcpError};
use vstd::prelude::*;

verus! {

/// Whether bit `d` of the bitmask is set.
pub open spec fn bit_set(blp: u16, d: u16) -> bool {
    (blp >> d) & 1 != 0
}

/// The bitmask with bit `d` set as well.
pub open spec fn with_bit(blp: u16, d: u16) -> u16 {
    blp | (1u16 << d)
}

/// The bits of the bitmask below bit `d`.
pub open spec fn low_bits(blp: u16, d: u16) -> u16 {
    blp & (((1u32 << (d as u32)) - 1) as u16)
}

/// The sequence number that bit `d` of a bitmask stands for: `d + 1` behind
/// the packet identifier, counted modulo 2^16.
pub open spec fn seq_after(pid: u16, d: int) -> u16 {
    if pid + d + 1 > 0xFFFF {
        (pid + d + 1 - 0x1_0000) as u16
    } else {
        (pid + d + 1) as u16
    }
}

/// How many sequence numbers lie strictly between `pid` and `next`, counted
/// modulo 2^16.
pub open spec fn seq_gap(pid: u16, next: u16) -> int {
    if next > pid {
        next - pid - 1
    } else {
        next - pid - 1 + 0x1_0000
    }
}

/// The pairs that the greedy encoder still writes when it holds the pair
/// `(pid, blp)` and `rest` is left of the list: a number less than sixteen
/// behind the packet identifier sets its bit; any other closes the pair and
/// opens the next.
pub open spec fn nack_pairs_from(pid: u16, blp: u16, rest: Seq<u16>) -> Seq<(u16, u16)>
    decreases rest.len(),
{
    if rest.len() == 0 {
        seq![(pid, blp)]
    } else {
        let d = seq_gap(pid, rest[0]);
        if d < 16 {
            nack_pairs_from(pid, with_bit(blp, d as u16), rest.skip(1))
        } else {
            seq![(pid, blp)] + nack_pairs_from(rest[0], 0, rest.skip(1))
        }
    }
}

/// The pairs that stand for a list of lost sequence numbers. The list is
/// taken in the order given; an empty list gives no pair.
pub open spec fn nack_pairs(lost: Seq<u16>) -> Seq<(u16, u16)> {
    if lost.len() == 0 {
        Seq::empty()
    } else {
        nack_pairs_from(lost[0], 0, lost.skip(1))
    }
}

/// The sequence numbers that the bits from `d` up stand for, in bit order.
pub open spec fn run_from(pid: u16, blp: u16, d: nat) -> Seq<u16>
    decreases 16 - d,
{
    if d >= 16 {
        Seq::empty()
    } else if bit_set(blp, d as u16) {
        seq![seq_after(pid, d as int)] + run_from(pid, blp, d + 1)
    } else {
        run_from(pid, blp, d + 1)
    }
}

/// The sequence numbers that a list of pairs stands for: for each pair, the
/// packet identifier and then the numbers of its set bits.
pub open spec fn pairs_lost(pairs: Seq<(u16, u16)>) -> Seq<u16>
    decreases pairs.len(),
{
    if pairs.len() == 0 {
        Seq::empty()
    } else {
        seq![pairs[0].0] + run_from(pairs[0].0, pairs[0].1, 0) + pairs_lost(pairs.skip(1))
    }
}

/// The wire form of a list of pairs: four bytes for each.
pub open spec fn pairs_wire(pairs: Seq<(u16, u16)>) -> Seq<u8>
    decreases pairs.len(),
{
    if pairs.len() == 0 {
        Seq::empty()
    } else {
        pairs_wire(pairs.drop_last()) + u16_octets(pairs.last().0) + u16_octets(pairs.last().1)
    }
}

/// The `n` pairs that start at position `at`.
pub open spec fn pairs_at(b: Seq<u8>, at: int, n: nat) -> Seq<(u16, u16)> {
    Seq::new(n, |k: int| (u16_at(b, at + 4 * k), u16_at(b, at + 4 * k + 2)))
}

/// No pair starts less than sixteen behind the pair before it, so the
/// greedy encoder would not have merged the two.
pub open spec fn pairs_canonical(pairs: Seq<(u16, u16)>) -> bool {
    forall|k: int| 0 <= k < pairs.len() - 1 ==> seq_gap(pairs[k].0, #[trigger] pairs[k + 1].0) >= 16
}

/// A list of pairs takes four bytes for each pair.
pub proof fn lemma_pairs_wire_len(pairs: Seq<(u16, u16)>)
    ensures
        pairs_wire(pairs).len() == 4 * pairs.len(),
    decreases pairs.len(),
{
    if pairs.len() > 0 {
        lemma_pairs_wire_len(pairs.drop_last());
    }
}

/// The wire form of the first `k` pairs is the start of the wire form of
/// all of them.
pub proof fn lemma_pairs_wire_prefix(pairs: Seq<(u16, u16)>, k: int)
    requires
        0 <= k <= pairs.len(),
    ensures
        pairs_wire(pairs.take(k)) == pairs_wire(pairs).take(4 * k),
    decreases pairs.len(),
{
    lemma_pairs_wire_len(pairs);
    if k == pairs.len() {
        assert(pairs.take(k) =~= pairs);
        assert(pairs_wire(pairs).take(4 * k) =~= pairs_wire(pairs));
    } else {
        let front = pairs.drop_last();
        lemma_pairs_wire_prefix(front, k);
        lemma_pairs_wire_len(front);
        assert(pairs.take(k) =~= front.take(k));
        assert(pairs_wire(pairs).take(4 * k) =~= pairs_wire(front).take(4 * k));
    }
}

/// Writing the pairs that were read gives the bytes they were read from.
pub proof fn lemma_pairs_at_then_wire(b: Seq<u8>, at: int, n: nat)
    requires
        0 <= at,
        at + 4 * n <= b.len(),
    ensures
        pairs_wire(pairs_at(b, at, n)) == b.subrange(at, at + 4 * n),
    decreases n,
{
    let pairs = pairs_at(b, at, n);
    if n == 0 {
        assert(pairs_wire(pairs) =~= b.subrange(at, at + 4 * n));
    } else {
        let m = (n - 1) as nat;
        assert(pairs.drop_last() =~= pairs_at(b, at, m));
        lemma_pairs_at_then_wire(b, at, m);
        lemma_u16_at_write(b, at + 4 * m);
        lemma_u16_at_write(b, at + 4 * m + 2);
        assert(b.subrange(at, at + 4 * m) + b.subrange(at + 4 * m, at + 4 * m + 2) + b.subrange(
            at + 4 * m + 2,
            at + 4 * m + 4,
        ) =~= b.subrange(at, at + 4 * n));
    }
}

/// No bit lies below bit 0, and all sixteen lie below bit 16.
proof fn lemma_low_bits_ends(blp: u16)
    by (bit_vector)
    ensures
        low_bits(blp, 0) == 0,
        low_bits(blp, 16) == blp,
{
}

/// The bits below `d + 1` are those below `d`, and bit `d` where it is set.
proof fn lemma_low_bits_step(blp: u16, d: u16)
    by (bit_vector)
    requires
        d < 16,
    ensures
        bit_set(blp, d) ==> with_bit(low_bits(blp, d), d) == low_bits(blp, (d + 1) as u16),
        !bit_set(blp, d) ==> low_bits(blp, d) == low_bits(blp, (d + 1) as u16),
{
}

/// The encoder takes the numbers of a pair's set bits back into that pair.
proof fn lemma_run_absorbed(pid: u16, blp: u16, d: nat, acc: u16, tail: Seq<u16>)
    requires
        d <= 16,
        acc == low_bits(blp, d as u16),
    ensures
        nack_pairs_from(pid, acc, run_from(pid, blp, d) + tail) == nack_pairs_from(
            pid,
            blp,
            tail,
        ),
    decreases 16 - d,
{
    if d >= 16 {
        lemma_low_bits_ends(blp);
        assert(run_from(pid, blp, d) + tail =~= tail);
    } else {
        lemma_low_bits_step(blp, d as u16);
        if bit_set(blp, d as u16) {
            let x = seq_after(pid, d as int);
            let all = run_from(pid, blp, d) + tail;
            assert(all[0] == x);
            assert(seq_gap(pid, x) == d);
            assert(all.skip(1) =~= run_from(pid, blp, d + 1) + tail);
            lemma_run_absorbed(pid, blp, d + 1, with_bit(acc, d as u16), tail);
        } else {
            lemma_run_absorbed(pid, blp, d + 1, acc, tail);
        }
    }
}

/// Decoding a list of pairs and encoding the numbers again gives the same
/// pairs, where the encoder would not have merged any two of them.
pub proof fn lemma_pairs_lost_then_pairs(pairs: Seq<(u16, u16)>)
    requires
        pairs.len() > 0,
        pairs_canonical(pairs),
    ensures
        nack_pairs(pairs_lost(pairs)) == pairs,
    decreases pairs.len(),
{
    let pid = pairs[0].0;
    let blp = pairs[0].1;
    let later = pairs.skip(1);
    let tail = pairs_lost(later);
    let lost = pairs_lost(pairs);
    assert(lost[0] == pid);
    assert(lost.skip(1) =~= run_from(pid, blp, 0) + tail);
    lemma_low_bits_ends(blp);
    lemma_run_absorbed(pid, blp, 0, 0, tail);
    if later.len() == 0 {
        assert(seq![(pid, blp)] =~= pairs);
    } else {
        assert(later[0] == pairs[1]);
        assert(tail[0] == later[0].0);
        assert(seq_gap(pairs[0].0, pairs[0int + 1].0) >= 16);
        assert forall|k: int| 0 <= k < later.len() - 1 implies seq_gap(
            later[k].0,
            #[trigger] later[k + 1].0,
        ) >= 16 by {
            assert(later[k] == pairs[k + 1]);
            assert(later[k + 1] == pairs[(k + 1) + 1]);
        }
        lemma_pairs_lost_then_pairs(later);
        assert(nack_pairs(tail) == nack_pairs_from(tail[0], 0, tail.skip(1)));
        assert(seq![(pid, blp)] + later =~= pairs);
    }
}

/// Each number of the list is above the one before it.
pub open spec fn ascending(lost: Seq<u16>) -> bool {
    forall|i: int, j: int| 0 <= i < j < lost.len() ==> lost[i] < lost[j]
}

/// A bitmask with no bit at or above `k` has none at or above any `d` from
/// `k` on.
proof fn lemma_low_bits_above(blp: u16, k: u16, d: u16)
    by (bit_vector)
    requires
        k <= d <= 16,
        low_bits(blp, k) == blp,
    ensures
        low_bits(blp, d) == blp,
        d < 16 ==> !bit_set(blp, d),
        d < 16 ==> low_bits(with_bit(blp, d), (d + 1) as u16) == with_bit(blp, d),
{
}

/// Setting bit `d` sets that bit and leaves the others.
proof fn lemma_with_bit(blp: u16, d: u16, e: u16)
    by (bit_vector)
    requires
        d < 16,
        e < 16,
    ensures
        bit_set(with_bit(blp, d), e) == (e == d || bit_set(blp, e)),
{
}

/// A bitmask with no bit at or above `e` stands for no number from bit `e`
/// on.
proof fn lemma_run_empty(pid: u16, blp: u16, e: nat)
    requires
        e <= 16,
        low_bits(blp, e as u16) == blp,
    ensures
        run_from(pid, blp, e) == Seq::<u16>::empty(),
    decreases 16 - e,
{
    if e < 16 {
        lemma_low_bits_above(blp, e as u16, e as u16);
        lemma_low_bits_above(blp, e as u16, (e + 1) as u16);
        lemma_run_empty(pid, blp, e + 1);
    }
}

/// Setting a bit above all that are set adds its number at the end of the
/// run.
proof fn lemma_run_with_top_bit(pid: u16, blp: u16, d: u16, e: nat)
    requires
        e <= d < 16,
        low_bits(blp, d) == blp,
    ensures
        run_from(pid, with_bit(blp, d), e) == run_from(pid, blp, e) + seq![
            seq_after(pid, d as int),
        ],
    decreases d - e,
{
    let more = with_bit(blp, d);
    lemma_with_bit(blp, d, e as u16);
    if e == d {
        lemma_low_bits_above(blp, d, d);
        lemma_low_bits_above(blp, d, (d + 1) as u16);
        lemma_run_empty(pid, blp, e + 1);
        lemma_run_empty(pid, more, e + 1);
        assert(run_from(pid, blp, e) == run_from(pid, blp, e + 1));
        assert(run_from(pid, more, e) =~= run_from(pid, blp, e) + seq![seq_after(pid, d as int)]);
    } else {
        lemma_run_with_top_bit(pid, blp, d, e + 1);
        if bit_set(blp, e as u16) {
            assert(run_from(pid, more, e) =~= run_from(pid, blp, e) + seq![
                seq_after(pid, d as int),
            ]);
        }
    }
}

/// Encoding from a pair in the making and decoding again gives the numbers
/// of that pair and then the rest of the list, where the list ascends and
/// starts above all that the pair holds.
proof fn lemma_pairs_from_then_lost(pid: u16, blp: u16, k: u16, rest: Seq<u16>)
    requires
        k <= 16,
        low_bits(blp, k) == blp,
        ascending(rest),
        rest.len() > 0 ==> rest[0] > pid + k,
    ensures
        pairs_lost(nack_pairs_from(pid, blp, rest)) == seq![pid] + run_from(pid, blp, 0) + rest,
    decreases rest.len(),
{
    let pairs = nack_pairs_from(pid, blp, rest);
    if rest.len() == 0 {
        assert(pairs[0] == (pid, blp));
        assert(pairs.skip(1) =~= Seq::<(u16, u16)>::empty());
        assert(pairs_lost(pairs.skip(1)) =~= Seq::<u16>::empty());
        assert(pairs_lost(pairs) =~= seq![pid] + run_from(pid, blp, 0) + rest);
    } else {
        let next = rest[0];
        let later = rest.skip(1);
        let d = seq_gap(pid, next);
        assert(d == next - pid - 1);
        assert(ascending(later)) by {
            assert forall|i: int, j: int| 0 <= i < j < later.len() implies later[i] < later[j] by {
                assert(later[i] == rest[i + 1]);
                assert(later[j] == rest[j + 1]);
            }
        }
        if later.len() > 0 {
            assert(later[0] == rest[1]);
            assert(rest[0] < rest[1]);
        }
        if d < 16 {
            let more = with_bit(blp, d as u16);
            lemma_low_bits_above(blp, k, d as u16);
            lemma_run_with_top_bit(pid, blp, d as u16, 0);
            lemma_pairs_from_then_lost(pid, more, (d + 1) as u16, later);
            assert(seq_after(pid, d) == next);
            assert(seq![pid] + run_from(pid, more, 0) + later =~= seq![pid] + run_from(
                pid,
                blp,
                0,
            ) + rest);
        } else {
            lemma_low_bits_ends(0);
            lemma_run_empty(next, 0, 0);
            lemma_pairs_from_then_lost(next, 0, 0, later);
            assert(pairs[0] == (pid, blp));
            assert(pairs.skip(1) =~= nack_pairs_from(next, 0, later));
            assert(pairs_lost(pairs) =~= seq![pid] + run_from(pid, blp, 0) + rest);
        }
    }
}

/// Encoding a list of lost sequence numbers and decoding the pairs again
/// gives the list back, where the list is not empty and ascends.
pub proof fn lemma_pairs_then_lost(lost: Seq<u16>)
    requires
        lost.len() > 0,
        ascending(lost),
    ensures
        pairs_lost(nack_pairs(lost)) == lost,
        nack_pairs(lost).len() > 0,
{
    let rest = lost.skip(1);
    assert(ascending(rest)) by {
        assert forall|i: int, j: int| 0 <= i < j < rest.len() implies rest[i] < rest[j] by {
            assert(rest[i] == lost[i + 1]);
            assert(rest[j] == lost[j + 1]);
        }
    }
    if rest.len() > 0 {
        assert(rest[0] == lost[1]);
        assert(lost[0] < lost[1]);
    }
    lemma_low_bits_ends(0);
    lemma_run_empty(lost[0], 0, 0);
    lemma_pairs_from_then_lost(lost[0], 0, 0, rest);
    assert(seq![lost[0]] + run_from(lost[0], 0, 0) + rest =~= lost);
    lemma_pairs_from_canonical(lost[0], 0, rest);
}

/// What the encoder writes from a pair in the making starts with that
/// pair's packet identifier and is canonical.
proof fn lemma_pairs_from_canonical(pid: u16, blp: u16, rest: Seq<u16>)
    ensures
        nack_pairs_from(pid, blp, rest).len() > 0,
        nack_pairs_from(pid, blp, rest)[0].0 == pid,
        pairs_canonical(nack_pairs_from(pid, blp, rest)),
    decreases rest.len(),
{
    let pairs = nack_pairs_from(pid, blp, rest);
    if rest.len() > 0 {
        let d = seq_gap(pid, rest[0]);
        if d < 16 {
            lemma_pairs_from_canonical(pid, with_bit(blp, d as u16), rest.skip(1));
        } else {
            let later = nack_pairs_from(rest[0], 0, rest.skip(1));
            lemma_pairs_from_canonical(rest[0], 0, rest.skip(1));
            assert(pairs == seq![(pid, blp)] + later);
            assert forall|k: int| 0 <= k < pairs.len() - 1 implies seq_gap(
                pairs[k].0,
                #[trigger] pairs[k + 1].0,
            ) >= 16 by {
                if k == 0 {
                    assert(pairs[1] == later[0]);
                } else {
                    assert(pairs[k] == later[k - 1]);
                    assert(pairs[k + 1] == later[(k - 1) + 1]);
                }
            }
        }
    }
}

/// What the encoder writes is canonical, whatever the list.
pub proof fn lemma_nack_pairs_canonical(lost: Seq<u16>)
    ensures
        pairs_canonical(nack_pairs(lost)),
{
    if lost.len() > 0 {
        lemma_pairs_from_canonical(lost[0], 0, lost.skip(1));
    }
}

/// The number of pairs that the encoder still writes from the pair
/// `(pid, blp)` is at most `most`, whatever bitmask the pair has.
pub open spec fn writes_at_most(pid: u16, rest: Seq<u16>, most: int) -> bool {
    forall|blp: u16| (#[trigger] nack_pairs_from(pid, blp, rest)).len() <= most
}

/// From any pair in the making, the encoder writes at most `most` pairs.
pub open spec fn always_writes_at_most(rest: Seq<u16>, most: int) -> bool {
    forall|pid: u16, blp: u16| (#[trigger] nack_pairs_from(pid, blp, rest)).len() <= most
}

/// Numbers that all lie less than sixteen behind the packet identifier of
/// the pair in the making open no pair.
proof fn lemma_run_opens_none(
    pid: u16,
    blp: u16,
    from: u16,
    mask: u16,
    d: nat,
    tail: Seq<u16>,
    most: int,
)
    requires
        d <= 16,
        forall|e: int| d <= e < 16 ==> seq_gap(pid, #[trigger] seq_after(from, e)) < 16,
        writes_at_most(pid, tail, most),
    ensures
        nack_pairs_from(pid, blp, run_from(from, mask, d) + tail).len() <= most,
    decreases 16 - d,
{
    if d >= 16 {
        assert(run_from(from, mask, d) + tail =~= tail);
    } else if bit_set(mask, d as u16) {
        let x = seq_after(from, d as int);
        let all = run_from(from, mask, d) + tail;
        assert(all[0] == x);
        assert(all.skip(1) =~= run_from(from, mask, d + 1) + tail);
        let gap = seq_gap(pid, x);
        lemma_run_opens_none(pid, with_bit(blp, gap as u16), from, mask, d + 1, tail, most);
    } else {
        lemma_run_opens_none(pid, blp, from, mask, d + 1, tail, most);
    }
}

/// The numbers of one bitmask open at most one pair.
proof fn lemma_run_opens_one(
    pid: u16,
    blp: u16,
    from: u16,
    mask: u16,
    d: nat,
    tail: Seq<u16>,
    most: int,
)
    requires
        d <= 16,
        always_writes_at_most(tail, most),
    ensures
        nack_pairs_from(pid, blp, run_from(from, mask, d) + tail).len() <= most + 1,
    decreases 16 - d,
{
    if d >= 16 {
        assert(run_from(from, mask, d) + tail =~= tail);
    } else if bit_set(mask, d as u16) {
        let x = seq_after(from, d as int);
        let all = run_from(from, mask, d) + tail;
        assert(all[0] == x);
        assert(all.skip(1) =~= run_from(from, mask, d + 1) + tail);
        let gap = seq_gap(pid, x);
        if gap < 16 {
            lemma_run_opens_one(pid, with_bit(blp, gap as u16), from, mask, d + 1, tail, most);
        } else {
            assert forall|e: int| d + 1 <= e < 16 implies seq_gap(
                x,
                #[trigger] seq_after(from, e),
            ) < 16 by {}
            assert(writes_at_most(x, tail, most));
            lemma_run_opens_none(x, 0, from, mask, d + 1, tail, most);
        }
    } else {
        lemma_run_opens_one(pid, blp, from, mask, d + 1, tail, most);
    }
}

/// From any pair in the making, the encoder writes at most one pair more
/// than the numbers it is given were decoded from.
proof fn lemma_pairs_from_count(pairs: Seq<(u16, u16)>)
    ensures
        always_writes_at_most(pairs_lost(pairs), pairs.len() as int + 1),
    decreases pairs.len(),
{
    let lost = pairs_lost(pairs);
    if pairs.len() == 0 {
        assert(lost =~= Seq::<u16>::empty());
    } else {
        let from = pairs[0].0;
        let mask = pairs[0].1;
        let tail = pairs_lost(pairs.skip(1));
        let most = pairs.len() as int;
        lemma_pairs_from_count(pairs.skip(1));
        assert(lost[0] == from);
        assert(lost.skip(1) =~= run_from(from, mask, 0) + tail);
        assert forall|pid: u16, blp: u16| (#[trigger] nack_pairs_from(pid, blp, lost)).len()
            <= most + 1 by {
            let gap = seq_gap(pid, from);
            if gap < 16 {
                lemma_run_opens_one(pid, with_bit(blp, gap as u16), from, mask, 0, tail, most);
            } else {
                assert forall|e: int| 0 <= e < 16 implies seq_gap(
                    from,
                    #[trigger] seq_after(from, e),
                ) < 16 by {}
                assert(writes_at_most(from, tail, most));
                lemma_run_opens_none(from, 0, from, mask, 0, tail, most);
            }
        }
    }
}

/// Decoding pairs and encoding the numbers again never gives more pairs.
pub proof fn lemma_pairs_lost_then_pairs_count(pairs: Seq<(u16, u16)>)
    ensures
        nack_pairs(pairs_lost(pairs)).len() <= pairs.len(),
{
    let lost = pairs_lost(pairs);
    if pairs.len() == 0 {
        assert(lost =~= Seq::<u16>::empty());
    } else {
        let from = pairs[0].0;
        let mask = pairs[0].1;
        let tail = pairs_lost(pairs.skip(1));
        let most = pairs.len() as int;
        lemma_pairs_from_count(pairs.skip(1));
        assert(lost[0] == from);
        assert(lost.skip(1) =~= run_from(from, mask, 0) + tail);
        assert forall|e: int| 0 <= e < 16 implies seq_gap(from, #[trigger] seq_after(from, e))
            < 16 by {}
        assert(writes_at_most(from, tail, most));
        lemma_run_opens_none(from, 0, from, mask, 0, tail, most);
    }
}

/// In the wire form of a list of pairs, pair `k` stands at position `4 * k`.
pub proof fn lemma_pairs_wire_at(pairs: Seq<(u16, u16)>, k: int)
    requires
        0 <= k < pairs.len(),
    ensures
        pairs_wire(pairs).len() == 4 * pairs.len(),
        pairs_wire(pairs).subrange(4 * k, 4 * k + 2) == u16_octets(pairs[k].0),
        pairs_wire(pairs).subrange(4 * k + 2, 4 * k + 4) == u16_octets(pairs[k].1),
{
    lemma_pairs_wire_len(pairs);
    lemma_pairs_wire_prefix(pairs, k);
    lemma_pairs_wire_prefix(pairs, k + 1);
    let next = pairs.take(k + 1);
    assert(next.drop_last() =~= pairs.take(k));
    assert(next.last() == pairs[k]);
    let all = pairs_wire(pairs);
    let here = all.take(4 * k) + u16_octets(pairs[k].0) + u16_octets(pairs[k].1);
    assert(all.take(4 * (k + 1)) == here);
    assert(all.subrange(4 * k, 4 * k + 2) =~= all.take(4 * (k + 1)).subrange(4 * k, 4 * k + 2));
    assert(all.subrange(4 * k + 2, 4 * k + 4) =~= all.take(4 * (k + 1)).subrange(
        4 * k + 2,
        4 * k + 4,
    ));
    assert(here.subrange(4 * k, 4 * k + 2) =~= u16_octets(pairs[k].0));
    assert(here.subrange(4 * k + 2, 4 * k + 4) =~= u16_octets(pairs[k].1));
}

/// Where the bytes from position `at` are the wire form of `pairs`, reading
/// as many pairs there gives `pairs`.
pub proof fn lemma_pairs_wire_then_read(b: Seq<u8>, at: int, pairs: Seq<(u16, u16)>)
    requires
        0 <= at,
        at + 4 * pairs.len() <= b.len(),
        b.subrange(at, at + 4 * pairs.len()) == pairs_wire(pairs),
    ensures
        pairs_at(b, at, pairs.len()) == pairs,
{
    let all = pairs_wire(pairs);
    assert forall|k: int| 0 <= k < pairs.len() implies (
        u16_at(b, at + 4 * k),
        u16_at(b, at + 4 * k + 2),
    ) == pairs[k] by {
        lemma_pairs_wire_at(pairs, k);
        assert(b.subrange(at + 4 * k, at + 4 * k + 2) =~= all.subrange(4 * k, 4 * k + 2));
        assert(b.subrange(at + 4 * k + 2, at + 4 * k + 4) =~= all.subrange(4 * k + 2, 4 * k + 4));
        lemma_u16_read_at(b, at + 4 * k, pairs[k].0);
        lemma_u16_read_at(b, at + 4 * k + 2, pairs[k].1);
    }
    assert(pairs_at(b, at, pairs.len()) =~= pairs);
}

/// A generic NACK packet.
#[derive(Debug, Clone, Eq, PartialEq, Hash)]
pub struct RtcpRtpFeedbackPacket {
    pub format: u8,
    pub ssrc: u32,
    pub media_ssrc: u32,
    pub lost: Option<Vec<u16>>,
}

/// What a generic NACK packet holds.
pub struct RtpFeedback {
    pub format: u8,
    pub ssrc: u32,
    pub media_ssrc: u32,
    pub lost: Option<Seq<u16>>,
}

impl RtpFeedback {
    /// The pairs that the packet carries on the wire.
    pub open spec fn pairs(self) -> Seq<(u16, u16)> {
        match self.lost {
            Some(lost) => nack_pairs(lost),
            None => Seq::empty(),
        }
    }

    /// The body on the wire: the two identifiers, then the pairs.
    pub open spec fn wire(self) -> Seq<u8> {
        u32_octets(self.ssrc) + u32_octets(self.media_ssrc) + pairs_wire(self.pairs())
    }

    /// What a body decodes to under the format code `format`. The body is
    /// the two identifiers and whole pairs; with no pair there is no list.
    pub open spec fn parse(b: Seq<u8>, format: u8) -> Result<RtpFeedback, RtcpError> {
        if b.len() < 8 || b.len() % 4 != 0 {
            Err(RtcpError::InvalidPacketLength)
        } else {
            let n = ((b.len() - 8) / 4) as nat;
            Ok(
                RtpFeedback {
                    format,
                    ssrc: u32_at(b, 0),
                    media_ssrc: u32_at(b, 4),
                    lost: if n > 0 {
                        Some(pairs_lost(pairs_at(b, 8, n)))
                    } else {
                        None
                    },
                },
            )
        }
    }

    /// The pairs of a body, as they stand in it.
    pub open spec fn body_pairs(b: Seq<u8>) -> Seq<(u16, u16)> {
        pairs_at(b, 8, ((b.len() - 8) / 4) as nat)
    }

    /// The body is eight bytes and four more for each pair.
    pub proof fn lemma_wire_len(self)
        ensures
            self.wire().len() == 8 + 4 * self.pairs().len(),
    {
        lemma_pairs_wire_len(self.pairs());
    }

    /// The list of lost sequence numbers, where the packet has one, is not
    /// empty and ascends.
    pub open spec fn ascends(self) -> bool {
        self.lost matches Some(lost) ==> lost.len() > 0 && ascending(lost)
    }

    /// The wire form of a packet decodes to the packet, where its list of
    /// lost sequence numbers is not empty and ascends.
    pub proof fn lemma_wire_then_parse(self)
        requires
            self.ascends(),
        ensures
            Self::parse(self.wire(), self.format) == Ok::<RtpFeedback, RtcpError>(self),
    {
        let b = self.wire();
        let pairs = self.pairs();
        self.lemma_wire_len();
        lemma_pairs_wire_len(pairs);
        assert(b.subrange(0, 4) =~= u32_octets(self.ssrc));
        assert(b.subrange(4, 8) =~= u32_octets(self.media_ssrc));
        assert(b.subrange(8, 8 + 4 * (pairs.len() as int)) =~= pairs_wire(pairs));
        lemma_u32_read_at(b, 0, self.ssrc);
        lemma_u32_read_at(b, 4, self.media_ssrc);
        lemma_pairs_wire_then_read(b, 8, pairs);
        let n = ((b.len() - 8) / 4) as nat;
        assert(n == pairs.len());
        match self.lost {
            Some(lost) => {
                lemma_pairs_then_lost(lost);
            },
            None => {},
        }
    }

    /// A body that decodes is the wire form of what it decodes to exactly
    /// when the encoder would not have merged any two of its pairs.
    pub proof fn lemma_parse_then_wire(b: Seq<u8>, format: u8)
        requires
            Self::parse(b, format) is Ok,
        ensures
            Self::parse(b, format)->Ok_0.format == format,
            Self::parse(b, format)->Ok_0.wire() == b <==> pairs_canonical(Self::body_pairs(b)),
    {
        let n = ((b.len() - 8) / 4) as nat;
        let pairs = pairs_at(b, 8, n);
        let v = Self::parse(b, format)->Ok_0;
        lemma_u32_at_write(b, 0);
        lemma_u32_at_write(b, 4);
        lemma_pairs_at_then_wire(b, 8, n);
        assert(b.subrange(0, 4) + b.subrange(4, 8) + b.subrange(8, 8 + 4 * (n as int)) =~= b);
        if pairs_canonical(pairs) {
            if n > 0 {
                lemma_pairs_lost_then_pairs(pairs);
            } else {
                assert(pairs =~= Seq::empty());
            }
            assert(v.pairs() == pairs);
        }
        if v.wire() == b {
            let written = v.pairs();
            v.lemma_wire_len();
            lemma_pairs_wire_len(written);
            assert(written.len() == n);
            assert(b.subrange(8, 8 + 4 * (n as int)) =~= pairs_wire(written)) by {
                assert(v.wire().subrange(8, 8 + 4 * (n as int)) =~= pairs_wire(written));
            }
            lemma_pairs_wire_then_read(b, 8, written);
            match v.lost {
                Some(lost) => {
                    lemma_nack_pairs_canonical(lost);
                },
                None => {},
            }
        }
    }
}

impl View for RtcpRtpFeedbackPacket {
    type V = RtpFeedback;

    open spec fn view(&self) -> RtpFeedback {
        RtpFeedback {
            format: self.format,
            ssrc: self.ssrc,
            media_ssrc: self.media_ssrc,
            lost: match self.lost {
                Some(lost) => Some(lost@),
                None => None,
            },
        }
    }
}

/// The pairs that stand for `lost`, by the greedy rule.
pub fn pack_lost(lost: &Vec<u16>) -> (pairs: Vec<(u16, u16)>)
    ensures
        pairs@ == nack_pairs(lost@),
{
    let mut pairs: Vec<(u16, u16)> = Vec::new();
    if lost.len() == 0 {
        return pairs;
    }
    let mut pid: u16 = lost[0];
    let mut blp: u16 = 0;
    let mut i: usize = 1;
    while i < lost.len()
        invariant
            1 <= i <= lost@.len(),
            nack_pairs(lost@) == pairs@ + nack_pairs_from(pid, blp, lost@.skip(i as int)),
        decreases lost@.len() - i,
    {
        let p: u16 = lost[i];
        let d: u16 = p.wrapping_sub(pid).wrapping_sub(1);
        proof {
            let rest = lost@.skip(i as int);
            assert(rest[0] == p);
            assert(rest.skip(1) =~= lost@.skip(i + 1));
            assert(d == seq_gap(pid, p));
        }
        if d < 16 {
            blp = blp | (1u16 << d);
        } else {
            let ghost before = pairs@;
            pairs.push((pid, blp));
            proof {
                assert(pairs@ + nack_pairs_from(p, 0, lost@.skip(i + 1)) =~= before + (seq![
                    (pid, blp),
                ] + nack_pairs_from(p, 0, lost@.skip(i + 1))));
            }
            pid = p;
            blp = 0;
        }
        i = i + 1;
    }
    let ghost before = pairs@;
    pairs.push((pid, blp));
    proof {
        assert(lost@.skip(i as int).len() == 0);
        assert(pairs@ =~= before + seq![(pid, blp)]);
    }
    pairs
}

/// The sequence numbers that one pair stands for, added to `lost`.
pub fn unpack_pair(pid: u16, blp: u16, lost: &mut Vec<u16>)
    ensures
        final(lost)@ == old(lost)@ + seq![pid] + run_from(pid, blp, 0),
{
    lost.push(pid);
    let mut d: u16 = 0;
    while d < 16
        invariant
            d <= 16,
            lost@ + run_from(pid, blp, d as nat) == old(lost)@ + seq![pid] + run_from(pid, blp, 0),
        decreases 16 - d,
    {
        let ghost before = lost@;
        if (blp >> d) & 1 != 0 {
            lost.push(pid.wrapping_add(d + 1));
            proof {
                assert(lost@ + run_from(pid, blp, (d + 1) as nat) =~= before + (seq![
                    seq_after(pid, d as int),
                ] + run_from(pid, blp, (d + 1) as nat)));
            }
        }
        d = d + 1;
    }
    proof {
        assert(lost@ + run_from(pid, blp, 16) =~= lost@);
    }
}

impl RtcpRtpFeedbackPacket {
    /// A NACK packet of the given format code, identifiers and lost sequence
    /// numbers.
    pub fn new(format: u8, ssrc: u32, media_ssrc: u32, lost: Option<Vec<u16>>) -> (r: Self)
        ensures
            r.format == format,
            r.ssrc == ssrc,
            r.media_ssrc == media_ssrc,
            r.lost == lost,
    {
        RtcpRtpFeedbackPacket { format, ssrc, media_ssrc, lost }
    }

    /// The length of the body on the wire, in bytes.
    pub fn get_length(&self) -> (n: u32)
        requires
            self@.wire().len() <= u32::MAX,
        ensures
            n == self@.wire().len(),
    {
        proof {
            self@.lemma_wire_len();
        }
        match &self.lost {
            Some(lost) => {
                let pairs = pack_lost(lost);
                8 + 4 * (pairs.len() as u32)
            },
            None => 8,
        }
    }

    /// The format code, for the packet header's count field.
    pub fn get_format(&self) -> (n: u8)
        ensures
            n == self@.format,
    {
        self.format
    }

    /// Writes the body at the cursor. Fails, with the buffer possibly written
    /// in part, exactly when the body does not fit.
    pub fn to_bytes(&self, out: &mut Octets) -> (r: Result<(), RtcpError>)
        requires
            old(out).wf(),
        ensures
            final(final(out).buf)@ == final(old(out).buf)@,
            match r {
                Ok(_) => {
                    &&& old(out).rest().len() >= self@.wire().len()
                    &&& final(out).wrote(old(out), self@.wire())
                },
                Err(e) => {
                    &&& old(out).rest().len() < self@.wire().len()
                    &&& e == short_buffer()
                    &&& final(out).stopped(old(out), self@.wire())
                },
            },
    {
        let ghost b0 = out.bytes();
        let ghost p = out.pos();
        proof {
            self@.lemma_wire_len();
        }
        lift(out.put_u32(self.ssrc))?;
        lift(out.put_u32(self.media_ssrc))?;
        let ghost head = u32_octets(self.ssrc) + u32_octets(self.media_ssrc);
        proof {
            lemma_spliced_twice(b0, p, u32_octets(self.ssrc), u32_octets(self.media_ssrc));
        }
        match &self.lost {
            Some(lost) => {
                let pairs = pack_lost(lost);
                let mut i: usize = 0;
                assert(head + pairs_wire(pairs@.take(0)) =~= head);
                while i < pairs.len()
                    invariant
                        i <= pairs@.len(),
                        b0 == old(out).bytes(),
                        p == old(out).pos(),
                        old(out).wf(),
                        head.len() == 8,
                        pairs@ == self@.pairs(),
                        self@.wire() == head + pairs_wire(pairs@),
                        self@.wire().len() == 8 + 4 * pairs@.len(),
                        out.wrote(old(out), head + pairs_wire(pairs@.take(i as int))),
                        pairs_wire(pairs@.take(i as int)).len() == 4 * i,
                        final(out.buf)@ == final(old(out).buf)@,
                    decreases pairs@.len() - i,
                {
                    let ghost done = head + pairs_wire(pairs@.take(i as int));
                    let pair = pairs[i];
                    proof {
                        lemma_pairs_wire_prefix(pairs@, i as int);
                        lemma_pairs_wire_prefix(pairs@, i + 1);
                        let next = pairs@.take(i + 1);
                        assert(next.drop_last() =~= pairs@.take(i as int));
                        assert(next.last() == pair);
                        let both = u16_octets(pair.0) + u16_octets(pair.1);
                        assert(pairs_wire(next) =~= pairs_wire(pairs@.take(i as int)) + both);
                        assert forall|x: int| 4 * i <= x < 4 * (i + 1) implies pairs_wire(
                            pairs@,
                        )[x] == both[x - 4 * i] by {
                            assert(pairs_wire(pairs@).take(4 * (i + 1))[x] == (pairs_wire(
                                pairs@.take(i as int),
                            ) + both)[x]);
                        }
                    }
                    lift(out.put_u16(pair.0))?;
                    proof {
                        lemma_spliced_twice(b0, p, done, u16_octets(pair.0));
                    }
                    lift(out.put_u16(pair.1))?;
                    proof {
                        lemma_spliced_twice(b0, p, done + u16_octets(pair.0), u16_octets(pair.1));
                        let next = pairs@.take(i + 1);
                        assert(next.drop_last() =~= pairs@.take(i as int));
                        assert(next.last() == pair);
                        assert(head + pairs_wire(next) =~= done + u16_octets(pair.0) + u16_octets(
                            pair.1,
                        ));
                    }
                    i = i + 1;
                }
                assert(pairs@.take(i as int) =~= pairs@);
            },
            None => {
                assert(head + pairs_wire(Seq::empty()) =~= head);
            },
        }
        Ok(())
    }

    /// Reads the two identifiers and the pairs that follow, to the end of
    /// the buffer. Fails, with nothing read, exactly when what is left is
    /// shorter than the identifiers or is not a whole number of 32-bit words.
    pub fn from_bytes(bytes: &mut Octets, format: u8) -> (r: Result<
        RtcpRtpFeedbackPacket,
        RtcpError,
    >)
        requires
            old(bytes).wf(),
        ensures
            final(final(bytes).buf)@ == final(old(bytes).buf)@,
            final(bytes).wf(),
            final(bytes).bytes() == old(bytes).bytes(),
            r is Ok <==> old(bytes).rest().len() >= 8 && old(bytes).rest().len() % 4 == 0,
            match r {
                Ok(p) => {
                    &&& RtpFeedback::parse(old(bytes).rest(), format) == Ok::<
                        RtpFeedback,
                        RtcpError,
                    >(p@)
                    &&& final(bytes).pos() == old(bytes).bytes().len()
                },
                Err(e) => {
                    &&& e == RtcpError::InvalidPacketLength
                    &&& final(bytes).pos() == old(bytes).pos()
                },
            },
    {
        let len: usize = bytes.cap();
        if len < 8 || len % 4 != 0 {
            return Err(RtcpError::InvalidPacketLength);
        }
        let ssrc = lift(bytes.get_u32())?;
        let media_ssrc = lift(bytes.get_u32())?;
        let fci_count: usize = (len - 8) / 4;
        let ghost b = old(bytes).rest();
        let ghost pairs = pairs_at(b, 8, fci_count as nat);
        let lost = if fci_count > 0 {
            let mut tmp_lost: Vec<u16> = Vec::new();
            let mut k: usize = 0;
            proof {
                assert(pairs.skip(0) =~= pairs);
                assert(tmp_lost@ + pairs_lost(pairs) =~= pairs_lost(pairs));
            }
            while k < fci_count
                invariant
                    k <= fci_count,
                    len == old(bytes).rest().len(),
                    len == 8 + 4 * fci_count,
                    b == old(bytes).rest(),
                    pairs == pairs_at(b, 8, fci_count as nat),
                    bytes.advanced(old(bytes), 8 + 4 * k),
                    tmp_lost@ + pairs_lost(pairs.skip(k as int)) == pairs_lost(pairs),
                    final(bytes.buf)@ == final(old(bytes).buf)@,
                decreases fci_count - k,
            {
                let pid = lift(bytes.get_u16())?;
                let blp = lift(bytes.get_u16())?;
                let ghost before = tmp_lost@;
                unpack_pair(pid, blp, &mut tmp_lost);
                proof {
                    let here = pairs.skip(k as int);
                    assert(here[0] == (pid, blp));
                    assert(here.skip(1) =~= pairs.skip(k + 1));
                    assert(tmp_lost@ + pairs_lost(pairs.skip(k + 1)) =~= before + (seq![pid]
                        + run_from(pid, blp, 0) + pairs_lost(pairs.skip(k + 1))));
                }
                k = k + 1;
            }
            proof {
                assert(pairs.skip(k as int).len() == 0);
                assert(tmp_lost@ + pairs_lost(pairs.skip(k as int)) =~= tmp_lost@);
            }
            Some(tmp_lost)
        } else {
            None
        };
        Ok(RtcpRtpFeedbackPacket { format, ssrc, media_ssrc, lost })
    }
}

} // verus!
