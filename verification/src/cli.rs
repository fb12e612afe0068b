//! Reading the numbers the probes are given on the command line.
use vstd::prelude::*;
use vstd::string::StringSliceAdditionalSpecFns;

verus! {

/// A decimal digit.
pub open spec fn is_digit(c: char) -> bool {
    '0' as int <= c as int <= '9' as int
}

/// The value of a string of decimal digits, most significant first.
pub open spec fn decimal(s: Seq<char>) -> int
    decreases s.len(),
{
    if s.len() == 0 {
        0
    } else {
        decimal(s.drop_last()) * 10 + (s.last() as int - '0' as int)
    }
}

/// The digits of a number: the text without one leading `+`.
pub open spec fn digits_of(s: Seq<char>) -> Seq<char> {
    if s.len() > 0 && s[0] == '+' {
        s.skip(1)
    } else {
        s
    }
}

/// What `text` means as an unsigned 32-bit number: an optional `+` and at
/// least one decimal digit, with a value that fits; anything else is not a
/// number.
pub open spec fn parsed(s: Seq<char>) -> Option<u32> {
    let d = digits_of(s);
    if d.len() > 0 && (forall|k: int| 0 <= k < d.len() ==> is_digit(#[trigger] d[k])) && decimal(
        d,
    ) <= u32::MAX {
        Some(decimal(d) as u32)
    } else {
        None
    }
}

proof fn lemma_decimal_nonnegative(s: Seq<char>)
    requires
        forall|k: int| 0 <= k < s.len() ==> is_digit(#[trigger] s[k]),
    ensures
        decimal(s) >= 0,
    decreases s.len(),
{
    if s.len() > 0 {
        lemma_decimal_nonnegative(s.drop_last());
    }
}

/// A command-line number: `None` when the text is not one.
pub fn parse(text: &str) -> (r: Option<u32>)
    ensures
        r == parsed(text@),
{
    if !text.is_ascii() {
        proof {
            // Some character is outside ASCII, so it is neither a digit nor `+`.
            let c = choose|i: int| 0 <= i < text@.len() && !('\0' <= #[trigger] text@[i] <= '\u{7f}');
            let d = digits_of(text@);
            if d.len() > 0 && (forall|k: int| 0 <= k < d.len() ==> is_digit(#[trigger] d[k])) {
                if text@.len() > 0 && text@[0] == '+' {
                    assert(d[c - 1] == text@[c]);
                } else {
                    assert(d[c] == text@[c]);
                }
            }
        }
        return None;
    }
    let bytes = text.as_bytes();
    proof {
        vstd::string::is_ascii_spec_bytes(text);
        assert(bytes@ == text.spec_bytes());
    }
    let mut start: usize = 0;
    if bytes.len() > 0 && bytes[0] == 43 {
        start = 1;
    }
    let ghost d = digits_of(text@);
    proof {
        assert(d =~= text@.skip(start as int));
    }
    if start == bytes.len() {
        return None;
    }
    // The value saturates at 2^32, which is already too large.
    let mut value: u64 = 0;
    let mut k: usize = start;
    while k < bytes.len()
        invariant
            start <= k <= bytes@.len(),
            bytes@.len() == text@.len(),
            forall|n: int| 0 <= n < bytes@.len() ==> bytes@[n] == text@[n] as u8,
            forall|n: int| 0 <= n < text@.len() ==> '\0' <= #[trigger] text@[n] <= '\u{7f}',
            d =~= text@.skip(start as int),
            d == digits_of(text@),
            forall|n: int| 0 <= n < k - start ==> is_digit(#[trigger] d[n]),
            value == if decimal(d.take(k - start)) < 0x1_0000_0000 {
                decimal(d.take(k - start))
            } else {
                0x1_0000_0000
            },
        decreases bytes@.len() - k,
    {
        let b = bytes[k];
        proof {
            let c = text@[k as int];
            let c32 = c as u32;
            assert(c32 <= 127);
            assert(c as int == c32 as int);
            assert(b == c32 as u8);
            assert((c32 as u8) as u32 == c32) by (bit_vector)
                requires
                    c32 < 128,
            ;
            assert(text@[k as int] as int == b as int);
        }
        if b < 48 || b > 57 {
            proof {
                assert(d[k - start] == text@[k as int]);
                assert('0' as int == 48 && '9' as int == 57);
                assert(!is_digit(d[k - start]));
            }
            return None;
        }
        proof {
            assert(d[k - start] == text@[k as int]);
            assert(d.take(k - start + 1).drop_last() =~= d.take(k - start));
            assert(d.take(k - start + 1).last() == d[k - start]);
            lemma_decimal_nonnegative(d.take(k - start));
        }
        value = value * 10 + (b - 48) as u64;
        if value > 0x1_0000_0000 {
            value = 0x1_0000_0000;
        }
        k = k + 1;
    }
    proof {
        assert(d.take(d.len() as int) =~= d);
    }
    if value > 0xffff_ffff {
        None
    } else {
        Some(value as u32)
    }
}

} // verus!
