//! Search-range codec: packing a mixed-radix digit sequence plus a linear
//! offset into the 128-bit starting value of a batch, split into two
//! 64-bit halves for the kernel's scalar arguments.

use vstd::prelude::*;
use vstd::arithmetic::power2::{
    pow2, lemma2_to64, lemma_pow2_adds, lemma_pow2_pos, lemma_pow2_strictly_increases,
};
use vstd::arithmetic::mul::lemma_mul_inequality;
use vstd::arithmetic::div_mod::{lemma_fundamental_div_mod, lemma_mod_division_less_than_divisor};

use crate::errors::WorkerError;

verus! {

/// A coordinator-issued work assignment: most-significant-first 11-bit
/// digits, an absolute offset added after packing, and the number of
/// lanes to scan.
#[derive(Debug)]
pub struct WorkAssignment {
    pub digits: Vec<u16>,
    pub offset: u128,
    pub batch_size: u64,
}

/// The decoded, ready-to-dispatch form of one assignment. `start_hi` and
/// `start_lo` are the upper and lower halves of the 128-bit starting
/// candidate value; `batch_size` and `offset` are carried through
/// unchanged for dispatch and reporting.
#[derive(Clone, Copy, Debug, PartialEq, Eq, Structural)]
pub struct SearchRange {
    pub start_hi: u64,
    pub start_lo: u64,
    pub batch_size: u64,
    pub offset: u128,
}

/// Every digit is an 11-bit value.
pub open spec fn digits_wf(digits: Seq<u16>) -> bool {
    forall|i: int| 0 <= i < digits.len() ==> digits[i] < 2048
}

impl WorkAssignment {
    pub open spec fn wf(self) -> bool {
        digits_wf(self.digits@)
    }
}

/// Value of `digits` packed big-endian with radix 2^11, left-aligned so
/// that the first digit occupies the 11 bits just below bit `cursor`.
/// Once the cursor cannot fall by another 11 bits the remaining digits
/// have no place; that situation is rejected by `decode` before this
/// function is relied upon.
pub open spec fn pack_from(digits: Seq<u16>, cursor: nat) -> int
    decreases digits.len(),
{
    if digits.len() == 0 {
        0
    } else if cursor < 11 {
        0
    } else {
        digits[0] * pow2((cursor - 11) as nat) + pack_from(digits.skip(1), (cursor - 11) as nat)
    }
}

/// Packed value of a whole digit sequence: the cursor starts at 128, so
/// the first digit sits at bits 117..=127.
pub open spec fn pack(digits: Seq<u16>) -> int {
    pack_from(digits, 128)
}

/// The 128-bit starting value an assignment denotes: packed digits plus
/// the linear offset.
pub open spec fn packed_start(digits: Seq<u16>, offset: u128) -> int {
    pack(digits) + offset
}

/// Decoding succeeds exactly when every digit has a place (at most 11
/// digits of 11 bits in 128 bits) and the sum fits in 128 bits.
pub open spec fn decode_ok(digits: Seq<u16>, offset: u128) -> bool {
    &&& digits.len() <= 11
    &&& packed_start(digits, offset) <= u128::MAX
}

/// The range a successful decode yields: the starting value split at the
/// 64-bit boundary, batch size and offset carried through.
pub open spec fn spec_decode(digits: Seq<u16>, offset: u128, batch_size: u64) -> SearchRange {
    SearchRange {
        start_hi: (packed_start(digits, offset) / (pow2(64) as int)) as u64,
        start_lo: (packed_start(digits, offset) % (pow2(64) as int)) as u64,
        batch_size,
        offset,
    }
}

/// The 128-bit value the two halves stand for.
pub open spec fn recombined(hi: u64, lo: u64) -> int {
    hi * pow2(64) + lo
}

/// Appending one digit to a packed sequence adds it at the next place
/// below the already-placed digits.
proof fn lemma_pack_from_snoc(digits: Seq<u16>, cursor: nat)
    requires
        digits.len() >= 1,
        cursor >= 11 * digits.len(),
    ensures
        pack_from(digits, cursor) == pack_from(digits.drop_last(), cursor) + digits.last()
            * pow2((cursor - 11 * digits.len()) as nat),
    decreases digits.len(),
{
    let below = (cursor - 11) as nat;
    let place = (cursor - 11 * digits.len()) as nat;
    if digits.len() == 1 {
        assert(digits.skip(1) =~= Seq::<u16>::empty());
        assert(pack_from(digits, cursor) == digits[0] * pow2(below) + pack_from(
            digits.skip(1),
            below,
        ));
        assert(pack_from(digits.skip(1), below) == 0);
        assert(digits.drop_last() =~= Seq::<u16>::empty());
        assert(pack_from(digits.drop_last(), cursor) == 0);
        assert(digits.last() == digits[0]);
        assert(place == below);
    } else {
        let tail = digits.skip(1);
        assert(pack_from(digits, cursor) == digits[0] * pow2(below) + pack_from(tail, below));
        assert(11 * digits.len() == 11 * tail.len() + 11);
        lemma_pack_from_snoc(tail, below);
        assert(below - 11 * tail.len() == place);
        assert(digits.drop_last().len() >= 1);
        assert(pack_from(digits.drop_last(), cursor) == digits.drop_last()[0] * pow2(below)
            + pack_from(digits.drop_last().skip(1), below));
        assert(digits.drop_last().skip(1) =~= tail.drop_last());
        assert(digits.drop_last()[0] == digits[0]);
        assert(tail.last() == digits.last());
    }
}

/// A packed sequence of well-formed digits never reaches `pow2(cursor)`;
/// it leaves at least the `cursor - 11 * len` low bits clear.
proof fn lemma_pack_from_bound(digits: Seq<u16>, cursor: nat)
    requires
        digits_wf(digits),
        cursor >= 11 * digits.len(),
    ensures
        0 <= pack_from(digits, cursor),
        pack_from(digits, cursor) <= pow2(cursor) - pow2((cursor - 11 * digits.len()) as nat),
    decreases digits.len(),
{
    lemma_pow2_pos(cursor);
    lemma_pow2_pos((cursor - 11 * digits.len()) as nat);
    if digits.len() == 0 {
    } else {
        let tail = digits.skip(1);
        assert(digits_wf(tail));
        lemma_pack_from_bound(tail, (cursor - 11) as nat);
        let below = (cursor - 11) as nat;
        lemma_pow2_pos(below);
        lemma_mul_inequality(digits[0] as int, 2047, pow2(below) as int);
        vstd::arithmetic::mul::lemma_mul_nonnegative(digits[0] as int, pow2(below) as int);
        lemma_pow2_adds(11, below);
        lemma2_to64();
        assert(2047 * pow2(below) == 2048 * pow2(below) - pow2(below)) by (nonlinear_arith);
        assert(11 * digits.len() == 11 + 11 * tail.len()) by (nonlinear_arith)
            requires digits.len() == tail.len() + 1;
    }
}

/// `pow2(128)` written as a machine bound.
proof fn lemma_pow2_128()
    ensures
        pow2(128) == u128::MAX + 1,
        pow2(64) == u64::MAX + 1,
{
    lemma2_to64();
    lemma_pow2_adds(64, 64);
}

/// Computes `pow2(e)` for exponents that fit a 128-bit value.
fn pow2_u128(e: u32) -> (r: u128)
    requires
        e < 128,
    ensures
        r == pow2(e as nat),
{
    let mut r: u128 = 1;
    let mut i: u32 = 0;
    proof {
        lemma2_to64();
    }
    while i < e
        invariant
            i <= e,
            e < 128,
            r == pow2(i as nat),
        decreases e - i,
    {
        proof {
            lemma_pow2_adds(i as nat, 1);
            lemma2_to64();
            lemma_pow2_strictly_increases((i + 1) as nat, 128);
            lemma_pow2_128();
        }
        r = r * 2;
        i = i + 1;
    }
    r
}

/// Decodes an assignment into a dispatchable range.
///
/// Packs the digits big-endian, radix 2^11, left-aligned to bit 127,
/// adds the offset, and splits the sum at the 64-bit boundary. A digit
/// sequence too long for 128 bits, or an offset addition that would
/// exceed 128 bits, is a coordinator contract violation and surfaces as
/// `EncodingOverflow`; the value is never silently wrapped.
pub fn decode(assignment: &WorkAssignment) -> (r: Result<SearchRange, WorkerError>)
    requires
        assignment.wf(),
    ensures
        match r {
            Ok(range) => decode_ok(assignment.digits@, assignment.offset) && range == spec_decode(
                assignment.digits@,
                assignment.offset,
                assignment.batch_size,
            ) && recombined(range.start_hi, range.start_lo) == packed_start(
                assignment.digits@,
                assignment.offset,
            ),
            Err(e) => e == WorkerError::EncodingOverflow && !decode_ok(
                assignment.digits@,
                assignment.offset,
            ),
        },
{
    let len = assignment.digits.len();
    if len > 11 {
        return Err(WorkerError::EncodingOverflow);
    }
    let mut acc: u128 = 0;
    let mut i: usize = 0;
    proof {
        assert(assignment.digits@.subrange(0, 0) =~= Seq::<u16>::empty());
        lemma_pow2_128();
    }
    while i < len
        invariant
            i <= len,
            len == assignment.digits@.len(),
            len <= 11,
            digits_wf(assignment.digits@),
            acc == pack_from(assignment.digits@.subrange(0, i as int), 128),
            acc + pow2((128 - 11 * i) as nat) <= pow2(128),
            pow2(128) == u128::MAX + 1,
        decreases len - i,
    {
        let d = assignment.digits[i];
        let shift: u32 = 117 - 11 * (i as u32);
        let p = pow2_u128(shift);
        proof {
            let below = shift as nat;
            lemma_pow2_pos(below);
            lemma_mul_inequality(d as int, 2047, pow2(below) as int);
            vstd::arithmetic::mul::lemma_mul_nonnegative(d as int, pow2(below) as int);
            lemma_pow2_adds(11, below);
            lemma2_to64();
            assert(2047 * pow2(below) == 2048 * pow2(below) - pow2(below)) by (nonlinear_arith);
            assert(128 - 11 * i == 11 + below) by (nonlinear_arith)
                requires i < 11, shift == 117 - 11 * i, below == shift as nat;
            let prefix = assignment.digits@.subrange(0, i as int + 1);
            lemma_pack_from_snoc(prefix, 128);
            assert(prefix.drop_last() =~= assignment.digits@.subrange(0, i as int));
            assert(128 - 11 * prefix.len() == below) by (nonlinear_arith)
                requires prefix.len() == i + 1, i < 11, below == 117 - 11 * i;
        }
        acc = acc + (d as u128) * p;
        i = i + 1;
    }
    proof {
        assert(assignment.digits@.subrange(0, len as int) =~= assignment.digits@);
    }
    match acc.checked_add(assignment.offset) {
        None => Err(WorkerError::EncodingOverflow),
        Some(start) => {
            proof {
                lemma_pow2_128();
                lemma_fundamental_div_mod(start as int, pow2(64) as int);
                lemma_mod_division_less_than_divisor(start as int, pow2(64) as int);
                let q = start as int / pow2(64) as int;
                assert(q < pow2(64)) by {
                    if q >= pow2(64) {
                        lemma_mul_inequality(pow2(64) as int, q, pow2(64) as int);
                        lemma_pow2_adds(64, 64);
                        assert(pow2(64) * pow2(64) <= q * pow2(64));
                        assert(start as int >= pow2(64) * (q as int)) by (nonlinear_arith)
                            requires
                                start as int == pow2(64) as int * q + start as int % pow2(64) as int,
                                start as int % pow2(64) as int >= 0;
                    }
                }
                assert(q >= 0) by {
                    vstd::arithmetic::div_mod::lemma_div_is_ordered(0, start as int, pow2(64) as int);
                }
            }
            let hi = (start / 0x1_0000_0000_0000_0000u128) as u64;
            let lo = (start % 0x1_0000_0000_0000_0000u128) as u64;
            Ok(SearchRange { start_hi: hi, start_lo: lo, batch_size: assignment.batch_size, offset: assignment.offset })
        },
    }
}

/// Recombines the two halves of a starting value into the 128-bit value
/// they stand for.
pub fn recombine(hi: u64, lo: u64) -> (r: u128)
    ensures
        r == recombined(hi, lo),
{
    proof {
        lemma_pow2_128();
        lemma_mul_inequality(hi as int, u64::MAX as int, pow2(64) as int);
        lemma_pow2_adds(64, 64);
        vstd::arithmetic::mul::lemma_mul_nonnegative(hi as int, pow2(64) as int);
        assert((u64::MAX as int) * pow2(64) == pow2(64) * pow2(64) - pow2(64)) by (nonlinear_arith)
            requires u64::MAX as int == pow2(64) - 1;
    }
    (hi as u128) * 0x1_0000_0000_0000_0000u128 + (lo as u128)
}

/// Packing is reversible: two well-formed digit sequences of the same
/// length with the same packed value are the same sequence, so the
/// digits can always be recovered from a packed value and its digit
/// count.
pub proof fn lemma_pack_reversible(d1: Seq<u16>, d2: Seq<u16>)
    requires
        digits_wf(d1),
        digits_wf(d2),
        d1.len() == d2.len(),
        d1.len() <= 11,
        pack(d1) == pack(d2),
    ensures
        d1 == d2,
{
    lemma_pack_from_reversible(d1, d2, 128);
}

/// The cursor-general form of packing reversibility: at any cursor deep
/// enough for every digit, equal packed values force equal sequences.
proof fn lemma_pack_from_reversible(d1: Seq<u16>, d2: Seq<u16>, cursor: nat)
    requires
        digits_wf(d1),
        digits_wf(d2),
        d1.len() == d2.len(),
        cursor >= 11 * d1.len(),
        pack_from(d1, cursor) == pack_from(d2, cursor),
    ensures
        d1 == d2,
    decreases d1.len(),
{
    if d1.len() == 0 {
        assert(d1 =~= d2);
    } else {
        let below = (cursor - 11) as nat;
        let t1 = d1.skip(1);
        let t2 = d2.skip(1);
        assert(digits_wf(t1));
        assert(digits_wf(t2));
        assert(11 * d1.len() == 11 * t1.len() + 11);
        lemma_pack_from_bound(t1, below);
        lemma_pack_from_bound(t2, below);
        lemma_pow2_pos(below);
        lemma_pow2_pos((below - 11 * t1.len()) as nat);
        // Each tail is too small to disturb its head digit's place, so
        // the head digits agree ...
        assert(d1[0] == d2[0]) by {
            if d1[0] != d2[0] {
                let (lo, hi) = if d1[0] < d2[0] {
                    (d1[0] as int, d2[0] as int)
                } else {
                    (d2[0] as int, d1[0] as int)
                };
                lemma_mul_inequality(lo + 1, hi, pow2(below) as int);
                assert((lo + 1) * pow2(below) == lo * pow2(below) + pow2(below))
                    by (nonlinear_arith);
                assert(false);
            }
        }
        // ... and with equal heads the packed tails agree too.
        lemma_pack_from_reversible(t1, t2, below);
        assert forall|i: int| 0 <= i < d1.len() implies d1[i] == d2[i] by {
            if i > 0 {
                assert(t1[i - 1] == d1[i]);
                assert(t2[i - 1] == d2[i]);
            }
        }
        assert(d1 =~= d2);
    }
}

/// Codec round trip: for any well-formed assignment whose packed value
/// plus offset fits in 128 bits, the two halves the codec yields
/// recombine to exactly `pack(digits) + offset`.
pub proof fn lemma_codec_round_trip(digits: Seq<u16>, offset: u128, batch_size: u64)
    requires
        digits_wf(digits),
        decode_ok(digits, offset),
    ensures
        recombined(
            spec_decode(digits, offset, batch_size).start_hi,
            spec_decode(digits, offset, batch_size).start_lo,
        ) == packed_start(digits, offset),
{
    let s = packed_start(digits, offset);
    lemma_pow2_128();
    lemma_pack_from_bound(digits, 128);
    assert(128 >= 11 * digits.len()) by (nonlinear_arith)
        requires digits.len() <= 11;
    lemma_fundamental_div_mod(s, pow2(64) as int);
    lemma_mod_division_less_than_divisor(s, pow2(64) as int);
    let q = s / pow2(64) as int;
    assert(q < pow2(64)) by {
        if q >= pow2(64) {
            lemma_mul_inequality(pow2(64) as int, q, pow2(64) as int);
            lemma_pow2_adds(64, 64);
            assert(s >= pow2(64) * q) by (nonlinear_arith)
                requires
                    s == pow2(64) as int * q + s % pow2(64) as int,
                    s % pow2(64) as int >= 0;
        }
    }
    assert(q >= 0) by {
        vstd::arithmetic::div_mod::lemma_div_is_ordered(0, s, pow2(64) as int);
    }
}

} // verus!
