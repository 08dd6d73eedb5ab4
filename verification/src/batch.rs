//! Interpretation of one dispatch's output regions: the single sentinel
//! byte that marks a find, and the null-padded candidate text.

use vstd::prelude::*;

verus! {

/// Outcome of one kernel dispatch over a batch: the found flag and the
/// raw 120-byte candidate-text region read back from the device. The
/// text is meaningful only when `found` is set.
#[derive(Debug)]
pub struct BatchResult {
    pub found: bool,
    pub candidate_text: Vec<u8>,
}

impl BatchResult {
    /// The candidate-text region is always exactly 120 bytes.
    pub open spec fn wf(self) -> bool {
        self.candidate_text@.len() == 120
    }
}

/// What remains of a buffer once its trailing zero bytes are stripped.
pub open spec fn trim_zeros(s: Seq<u8>) -> Seq<u8>
    decreases s.len(),
{
    if s.len() == 0 {
        s
    } else if s.last() == 0 {
        trim_zeros(s.drop_last())
    } else {
        s
    }
}

/// A run of null padding.
pub open spec fn zero_padding(n: nat) -> Seq<u8> {
    Seq::new(n, |i: int| 0u8)
}

/// Interprets the two output regions of one dispatch. The flag region
/// holds a single sentinel byte: exactly the value 1 marks a find.
pub fn batch_result_from_raw(found_flag: u8, candidate_text: Vec<u8>) -> (r: BatchResult)
    requires
        candidate_text@.len() == 120,
    ensures
        r.wf(),
        r.found == (found_flag == 1),
        r.candidate_text@ == candidate_text@,
{
    BatchResult { found: found_flag == 1, candidate_text }
}

/// Strips the null padding from a candidate-text buffer.
pub fn trim_trailing_zeros(buf: &Vec<u8>) -> (r: Vec<u8>)
    ensures
        r@ == trim_zeros(buf@),
{
    let mut end = buf.len();
    proof {
        assert(buf@.take(buf@.len() as int) =~= buf@);
    }
    while end > 0 && buf[end - 1] == 0
        invariant
            end <= buf@.len(),
            trim_zeros(buf@) == trim_zeros(buf@.take(end as int)),
        decreases end,
    {
        proof {
            assert(buf@.take(end as int).last() == buf@[end - 1]);
            assert(buf@.take(end as int).drop_last() =~= buf@.take(end - 1));
        }
        end = end - 1;
    }
    proof {
        if end > 0 {
            assert(buf@.take(end as int).last() == buf@[end - 1]);
            assert(trim_zeros(buf@.take(end as int)) == buf@.take(end as int));
        } else {
            assert(buf@.take(0) =~= Seq::<u8>::empty());
        }
    }
    let mut r: Vec<u8> = Vec::new();
    let mut i: usize = 0;
    while i < end
        invariant
            i <= end <= buf@.len(),
            r@ == buf@.take(i as int),
        decreases end - i,
    {
        let b = buf[i];
        proof {
            assert(buf@.take(i as int + 1) =~= buf@.take(i as int).push(buf@[i as int]));
        }
        r.push(b);
        i = i + 1;
    }
    r
}

/// Padding recovery: a buffer that is some text followed by null
/// padding, where the text itself does not end in a null byte, trims
/// back to exactly that text. In particular, candidate text free of null
/// bytes passes through the trim unchanged.
pub proof fn lemma_trim_recovers_padded(text: Seq<u8>, pad: nat)
    requires
        text.len() == 0 || text.last() != 0,
    ensures
        trim_zeros(text + zero_padding(pad)) == text,
    decreases pad,
{
    if pad == 0 {
        assert(text + zero_padding(0) =~= text);
        if text.len() > 0 {
            assert(trim_zeros(text) == text);
        }
    } else {
        let s = text + zero_padding(pad);
        assert(s.last() == 0);
        assert(s.drop_last() =~= text + zero_padding((pad - 1) as nat));
        lemma_trim_recovers_padded(text, (pad - 1) as nat);
    }
}

/// Shape of every trim: the result is the prefix of the buffer up to its
/// own length, it does not end in a null byte, and everything after it
/// in the buffer is null.
pub proof fn lemma_trim_shape(s: Seq<u8>)
    ensures
        trim_zeros(s).len() <= s.len(),
        trim_zeros(s) == s.take(trim_zeros(s).len() as int),
        trim_zeros(s).len() > 0 ==> trim_zeros(s).last() != 0,
        forall|i: int| trim_zeros(s).len() <= i < s.len() ==> s[i] == 0,
    decreases s.len(),
{
    if s.len() == 0 {
        assert(trim_zeros(s) =~= s.take(trim_zeros(s).len() as int));
    } else if s.last() == 0 {
        lemma_trim_shape(s.drop_last());
        assert(s.drop_last().take(trim_zeros(s).len() as int) =~= s.take(
            trim_zeros(s).len() as int,
        ));
        assert(forall|i: int|
            trim_zeros(s).len() <= i < s.len() ==> s[i] == if i < s.len() - 1 {
                s.drop_last()[i]
            } else {
                s.last()
            });
    } else {
        assert(trim_zeros(s) =~= s.take(trim_zeros(s).len() as int));
    }
}

} // verus!
