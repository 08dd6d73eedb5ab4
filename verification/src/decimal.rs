//! Decimal codec for 128-bit offsets. The coordinator carries offsets as
//! decimal numerals in its JSON bodies; this module parses and renders
//! them exactly.

use vstd::prelude::*;

verus! {

/// One or more ASCII decimal digits.
pub open spec fn is_decimal(s: Seq<u8>) -> bool {
    s.len() > 0 && forall|i: int| 0 <= i < s.len() ==> 48 <= #[trigger] s[i] <= 57
}

/// The number a big-endian digit string denotes.
pub open spec fn decimal_value(s: Seq<u8>) -> int
    decreases s.len(),
{
    if s.len() == 0 {
        0
    } else {
        decimal_value(s.drop_last()) * 10 + (s.last() - 48)
    }
}

/// The number a little-endian (least significant digit first) string
/// denotes; the shape a digit-extraction loop produces.
pub open spec fn decimal_value_le(s: Seq<u8>) -> int
    decreases s.len(),
{
    if s.len() == 0 {
        0
    } else {
        (s[0] - 48) + 10 * decimal_value_le(s.skip(1))
    }
}

/// Powers of ten.
pub open spec fn pow10(e: nat) -> int
    decreases e,
{
    if e == 0 {
        1
    } else {
        10 * pow10((e - 1) as nat)
    }
}

/// Once a prefix of a digit string already denotes a sizeable value, the
/// whole string denotes at least as much, whatever bytes follow.
proof fn lemma_decimal_grows(s: Seq<u8>, i: int)
    requires
        0 <= i <= s.len(),
        decimal_value(s.take(i)) >= 48,
    ensures
        decimal_value(s) >= decimal_value(s.take(i)),
    decreases s.len() - i,
{
    if i == s.len() {
        assert(s.take(i) =~= s);
    } else {
        let v = decimal_value(s.take(i));
        assert(s.take(i + 1).drop_last() =~= s.take(i));
        assert(s.take(i + 1).last() == s[i]);
        assert(decimal_value(s.take(i + 1)) == v * 10 + (s[i] - 48));
        assert(v * 10 + (s[i] - 48) >= v * 10 - 48);
        lemma_decimal_grows(s, i + 1);
    }
}

/// Parses an unsigned decimal numeral. Succeeds exactly when the text is
/// one or more ASCII digits denoting a value that fits in 128 bits.
pub fn parse_u128_decimal(s: &Vec<u8>) -> (r: Option<u128>)
    ensures
        match r {
            Some(v) => is_decimal(s@) && v == decimal_value(s@),
            None => !is_decimal(s@) || decimal_value(s@) > u128::MAX,
        },
{
    if s.len() == 0 {
        return None;
    }
    let mut acc: u128 = 0;
    let mut i: usize = 0;
    proof {
        assert(s@.take(0) =~= Seq::<u8>::empty());
    }
    while i < s.len()
        invariant
            i <= s@.len(),
            forall|j: int| 0 <= j < i ==> 48 <= #[trigger] s@[j] <= 57,
            acc == decimal_value(s@.take(i as int)),
        decreases s@.len() - i,
    {
        let b = s[i];
        if b < 48 || b > 57 {
            return None;
        }
        proof {
            assert(s@.take(i as int + 1).drop_last() =~= s@.take(i as int));
            assert(s@.take(i as int + 1).last() == s@[i as int]);
        }
        let acc10 = match acc.checked_mul(10) {
            Some(x) => x,
            None => {
                proof {
                    lemma_decimal_grows(s@, i as int + 1);
                }
                return None;
            },
        };
        acc = match acc10.checked_add((b - 48) as u128) {
            Some(x) => x,
            None => {
                proof {
                    lemma_decimal_grows(s@, i as int + 1);
                }
                return None;
            },
        };
        i = i + 1;
    }
    proof {
        assert(s@.take(s@.len() as int) =~= s@);
    }
    Some(acc)
}

/// Appending a digit to a little-endian string adds it at the next
/// higher place.
proof fn lemma_le_snoc(s: Seq<u8>, d: u8)
    ensures
        decimal_value_le(s.push(d)) == decimal_value_le(s) + (d - 48) * pow10(s.len()),
    decreases s.len(),
{
    assert(decimal_value_le(s.push(d)) == (s.push(d)[0] - 48) + 10 * decimal_value_le(
        s.push(d).skip(1),
    ));
    if s.len() == 0 {
        assert(s.push(d).skip(1) =~= Seq::<u8>::empty());
        assert(decimal_value_le(Seq::<u8>::empty()) == 0);
        assert(s.push(d)[0] == d);
    } else {
        assert(s.push(d).skip(1) =~= s.skip(1).push(d));
        lemma_le_snoc(s.skip(1), d);
        assert(s.push(d)[0] == s[0]);
        assert(pow10(s.len()) == 10 * pow10(s.skip(1).len())) by {
            assert(s.skip(1).len() == s.len() - 1);
        }
        assert((d - 48) * pow10(s.len()) == 10 * ((d - 48) * pow10(s.skip(1).len())))
            by (nonlinear_arith)
            requires
                pow10(s.len()) == 10 * pow10(s.skip(1).len()),
        ;
    }
}

/// Reading a little-endian digit string backwards gives the usual
/// big-endian reading.
proof fn lemma_le_reversed(s: Seq<u8>)
    ensures
        decimal_value(s.reverse()) == decimal_value_le(s),
    decreases s.len(),
{
    if s.len() == 0 {
        assert(s.reverse() =~= Seq::<u8>::empty());
    } else {
        assert(s.reverse().drop_last() =~= s.skip(1).reverse());
        assert(s.reverse().last() == s[0]);
        lemma_le_reversed(s.skip(1));
    }
}

/// Renders `n` as a decimal numeral: only ASCII digits, the exact value,
/// and no leading zero (a single zero digit stands for zero itself).
pub fn format_u128_decimal(n: u128) -> (r: Vec<u8>)
    ensures
        is_decimal(r@),
        decimal_value(r@) == n,
        r@[0] == 48 ==> r@.len() == 1,
{
    if n == 0 {
        let mut z: Vec<u8> = Vec::new();
        z.push(48);
        proof {
            assert(z@.drop_last() =~= Seq::<u8>::empty());
            assert(decimal_value(Seq::<u8>::empty()) == 0);
            assert(z@.last() == 48);
        }
        return z;
    }
    let mut low: Vec<u8> = Vec::new();
    let mut rem: u128 = n;
    while rem > 0
        invariant
            decimal_value_le(low@) + rem * pow10(low@.len()) == n,
            forall|j: int| 0 <= j < low@.len() ==> 48 <= #[trigger] low@[j] <= 57,
            rem == 0 ==> low@.len() > 0 && low@.last() != 48,
        decreases rem,
    {
        let d: u8 = (rem % 10) as u8;
        proof {
            lemma_le_snoc(low@, (d + 48) as u8);
            assert((d + 48) - 48 == rem % 10);
            assert(pow10(low@.len() + 1) == 10 * pow10(low@.len()));
            assert((rem % 10) * pow10(low@.len()) + (rem / 10) * pow10(low@.len() + 1) == rem
                * pow10(low@.len())) by (nonlinear_arith)
                requires
                    rem == 10 * (rem / 10) + (rem % 10),
                    pow10(low@.len() + 1) == 10 * pow10(low@.len()),
            ;
        }
        low.push(d + 48);
        rem = rem / 10;
    }
    proof {
        assert(pow10(low@.len()) >= 0) by {
            lemma_pow10_pos(low@.len());
        }
        lemma_le_reversed(low@);
    }
    let mut r: Vec<u8> = Vec::new();
    let mut j: usize = low.len();
    while j > 0
        invariant
            j <= low@.len(),
            r@.len() == low@.len() - j,
            forall|m: int| 0 <= m < r@.len() ==> r@[m] == low@[low@.len() - 1 - m],
        decreases j,
    {
        j = j - 1;
        let b = low[j];
        r.push(b);
    }
    proof {
        assert(r@ =~= low@.reverse());
        assert(r@[0] == low@.last());
    }
    r
}

/// Powers of ten are positive.
proof fn lemma_pow10_pos(e: nat)
    ensures
        pow10(e) >= 1,
    decreases e,
{
    if e > 0 {
        lemma_pow10_pos((e - 1) as nat);
    }
}

} // verus!
