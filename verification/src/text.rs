//! Building text: appending characters, strings and decimal numbers.

use vstd::prelude::*;

verus! {

/// `String::push` appends the character to the end of the string, as its
/// documentation says.
pub assume_specification[ String::push ](s: &mut String, ch: char)
    ensures
        final(s)@ == old(s)@.push(ch),
;

/// The character of the decimal digit `d`.
pub open spec fn digit_char(d: int) -> char {
    ((48 + d) as u8) as char
}

/// The decimal form of `n`, without leading zeros.
pub open spec fn decimal(n: nat) -> Seq<char>
    decreases n,
{
    if n < 10 {
        seq![digit_char(n as int)]
    } else {
        decimal(n / 10).push(digit_char((n % 10) as int))
    }
}

/// Appends the decimal form of `n` to `s`.
pub fn push_decimal(s: &mut String, n: u64)
    ensures
        final(s)@ == old(s)@ + decimal(n as nat),
    decreases n,
{
    if n >= 10 {
        push_decimal(s, n / 10);
    }
    let d: u8 = (n % 10) as u8;
    s.push((48 + d) as char);
    proof {
        if n >= 10 {
            assert(old(s)@ + decimal((n / 10) as nat).push(digit_char((n % 10) as int)) =~= (old(
                s,
            )@ + decimal((n / 10) as nat)).push(digit_char((n % 10) as int)));
        } else {
            assert(old(s)@ + seq![digit_char(n as int)] =~= old(s)@.push(digit_char(n as int)));
        }
    }
}

/// Appends the characters of `t` from position `from` up to position `to`.
pub fn push_range(s: &mut String, t: &str, from: usize, to: usize)
    requires
        from <= to <= t@.len(),
    ensures
        final(s)@ == old(s)@ + t@.subrange(from as int, to as int),
{
    let mut i: usize = from;
    proof {
        assert(old(s)@ + t@.subrange(from as int, from as int) =~= old(s)@);
    }
    while i < to
        invariant
            from <= i <= to <= t@.len(),
            s@ == old(s)@ + t@.subrange(from as int, i as int),
        decreases to - i,
    {
        let c = t.get_char(i);
        s.push(c);
        i = i + 1;
        proof {
            assert(old(s)@ + t@.subrange(from as int, i as int) =~= (old(s)@ + t@.subrange(
                from as int,
                i - 1,
            )).push(c));
        }
    }
}

/// The position of the first `/` at or behind position `from`, or the
/// length of the text where there is none.
pub open spec fn find_slash(text: Seq<char>, from: int) -> int
    decreases text.len() - from,
{
    if from < 0 || from >= text.len() {
        text.len() as int
    } else if text[from] == '/' {
        from
    } else {
        find_slash(text, from + 1)
    }
}

/// The position of the first `/` at or behind position `from`, or the
/// length of the text where there is none.
pub fn slash_from(text: &str, from: usize) -> (at: usize)
    requires
        from <= text@.len(),
    ensures
        at == find_slash(text@, from as int),
        from <= at <= text@.len(),
{
    let n = text.unicode_len();
    let mut i: usize = from;
    while i < n
        invariant
            n == text@.len(),
            from <= i <= n,
            find_slash(text@, from as int) == find_slash(text@, i as int),
        decreases n - i,
    {
        if text.get_char(i) == '/' {
            return i;
        }
        i = i + 1;
    }
    i
}

} // verus!
