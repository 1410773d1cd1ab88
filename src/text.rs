//! Characters, numerals and messages.
use vstd::prelude::*;

verus! {

/// Relies on `String::push`: appends one character at the end.
#[verifier::external_body]
pub(crate) fn push_char(s: &mut String, c: char)
    ensures
        final(s)@ == old(s)@.push(c),
{
    s.push(c)
}

/// The characters of `s`, in order.
pub fn chars_of(s: &str) -> (r: Vec<char>)
    ensures
        r@ == s@,
{
    broadcast use vstd::string::group_string_axioms;

    let mut r: Vec<char> = Vec::new();
    for c in it: s.chars()
        invariant
            r@ == it.seq().take(it.index() as int),
    {
        r.push(c);
    }
    assert(r@ =~= s@);
    r
}

/// The value of a digit character, in any radix up to 36; 36 for a
/// character that is no digit.
pub open spec fn digit_of(c: char) -> nat {
    if '0' <= c && c <= '9' {
        (c as nat - '0' as nat) as nat
    } else if 'a' <= c && c <= 'z' {
        (c as nat - 'a' as nat + 10) as nat
    } else if 'A' <= c && c <= 'Z' {
        (c as nat - 'A' as nat + 10) as nat
    } else {
        36
    }
}

/// Every character of `d` is a digit of `radix`.
pub open spec fn all_digits(d: Seq<char>, radix: nat) -> bool {
    forall|i: int| 0 <= i < d.len() ==> digit_of(#[trigger] d[i]) < radix
}

/// The value of the numeral `d` in `radix`, most significant digit first.
pub open spec fn value_of(d: Seq<char>, radix: nat) -> nat
    decreases d.len(),
{
    if d.len() == 0 {
        0
    } else {
        value_of(d.drop_last(), radix) * radix + digit_of(d.last())
    }
}

/// The digits of an unsigned numeral: `text` without a leading `+`.
pub open spec fn unsigned_digits(text: Seq<char>) -> Seq<char> {
    if text.len() > 0 && text[0] == '+' {
        text.drop_first()
    } else {
        text
    }
}

/// An unsigned numeral: an optional `+` and one or more digits of `radix`,
/// whose value is at most `max`.
pub open spec fn unsigned_of(text: Seq<char>, radix: nat, max: nat) -> Option<nat> {
    let d = unsigned_digits(text);
    if d.len() > 0 && all_digits(d, radix) && value_of(d, radix) <= max {
        Some(value_of(d, radix))
    } else {
        None
    }
}

/// A longer prefix of a numeral never has a smaller value.
pub proof fn lemma_value_of_prefix(d: Seq<char>, radix: nat, j: int, k: int)
    requires
        radix >= 1,
        0 <= j <= k <= d.len(),
    ensures
        value_of(d.take(j), radix) <= value_of(d.take(k), radix),
    decreases k - j,
{
    if j < k {
        lemma_value_of_prefix(d, radix, j, k - 1);
        assert(d.take(k).drop_last() =~= d.take(k - 1));
        let w = value_of(d.take(k - 1), radix);
        assert(w * radix >= w) by (nonlinear_arith)
            requires
                radix >= 1,
        ;
    }
}

fn digit(c: char) -> (r: u64)
    ensures
        r == digit_of(c),
{
    if '0' <= c && c <= '9' {
        (c as u32 - '0' as u32) as u64
    } else if 'a' <= c && c <= 'z' {
        (c as u32 - 'a' as u32 + 10) as u64
    } else if 'A' <= c && c <= 'Z' {
        (c as u32 - 'A' as u32 + 10) as u64
    } else {
        36
    }
}

/// Reads the unsigned numeral `text[from..to]` in `radix`, refusing a
/// value above `max`.
pub fn parse_unsigned(text: &Vec<char>, from: usize, to: usize, radix: u64, max: u64) -> (r: Option<
    u64,
>)
    requires
        from <= to <= text@.len(),
        2 <= radix <= 36,
    ensures
        match unsigned_of(text@.subrange(from as int, to as int), radix as nat, max as nat) {
            Some(v) => r == Some(v as u64),
            None => r is None,
        },
{
    let ghost t = text@.subrange(from as int, to as int);
    let mut start = from;
    if from < to && text[from] == '+' {
        start = from + 1;
    }
    let ghost d = text@.subrange(start as int, to as int);
    assert(d =~= unsigned_digits(t));
    if start == to {
        return None;
    }
    let mut v: u64 = 0;
    let mut i = start;
    while i < to
        invariant
            from <= start <= i <= to <= text@.len(),
            2 <= radix <= 36,
            d == text@.subrange(start as int, to as int),
            t == text@.subrange(from as int, to as int),
            d == unsigned_digits(t),
            v == value_of(d.take(i - start), radix as nat),
            v <= max,
            all_digits(d.take(i - start), radix as nat),
        decreases to - i,
    {
        let dv = digit(text[i]);
        let ghost k = i - start + 1;
        assert(d.take(k).drop_last() =~= d.take(k - 1));
        assert(d.take(k).last() == text@[i as int]);
        if dv >= radix {
            assert(d[k - 1] == text@[i as int]);
            assert(digit_of(d[k - 1]) >= radix);
            return None;
        }
        assert((v as u128) * (radix as u128) <= 36 * 0xffff_ffff_ffff_ffffu128) by (nonlinear_arith)
            requires
                v <= 0xffff_ffff_ffff_ffffu64,
                radix <= 36,
        ;
        assert(value_of(d.take(k), radix as nat) == v * radix + dv);
        let next: u128 = (v as u128) * (radix as u128) + (dv as u128);
        if next > max as u128 {
            proof {
                if all_digits(d, radix as nat) {
                    lemma_value_of_prefix(d, radix as nat, k, d.len() as int);
                    assert(d.take(d.len() as int) =~= d);
                }
            }
            return None;
        }
        v = next as u64;
        i = i + 1;
        proof {
            assert forall|j: int| 0 <= j < d.take(k).len() implies digit_of(#[trigger] d.take(k)[j]) < radix
                as nat by {
                if j < k - 1 {
                    assert(d.take(k)[j] == d.take(k - 1)[j]);
                }
            }
        }
    }
    assert(d.take(d.len() as int) =~= d);
    Some(v)
}

} // verus!
