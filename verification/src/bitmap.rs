use vstd::arithmetic::div_mod::lemma_fundamental_div_mod;
use vstd::arithmetic::div_mod::lemma_fundamental_div_mod_converse;
use vstd::prelude::*;
use vstd::std_specs::bits::axiom_u64_trailing_ones;
use vstd::std_specs::bits::axiom_u64_trailing_zeros;

verus! {

/// Bit `j` of one byte, counting from the least significant end.
pub open spec fn byte_bit(b: u8, j: int) -> bool {
    ((b as u64) >> (j as u64)) & 1u64 == 1u64
}

/// Bit `k` of a packed bit sequence stored least-significant-bit first in `bytes`.
pub open spec fn bit_in_bytes(bytes: Seq<u8>, k: int) -> bool {
    byte_bit(bytes[k / 8], k % 8)
}

/// Bit `j` of a 64-bit word, counting from the least significant end.
pub open spec fn word_bit(w: u64, j: int) -> bool {
    (w >> (j as u64)) & 1u64 == 1u64
}

/// How many bits of `s` are unset.
pub open spec fn count_unset(s: Seq<bool>) -> nat
    decreases s.len(),
{
    if s.len() == 0 {
        0
    } else {
        count_unset(s.drop_last()) + (if s.last() {
            0nat
        } else {
            1nat
        })
    }
}

/// `i` is the first position of `s` that holds `target`.
pub open spec fn is_first_with(s: Seq<bool>, target: bool, i: int) -> bool {
    &&& 0 <= i < s.len()
    &&& s[i] == target
    &&& forall|j: int| 0 <= j < i ==> s[j] != target
}

/// What a scan for `target` answers: the first position holding it, or 0
/// (the degenerate convention) when no position does.
pub open spec fn scan_result(s: Seq<bool>, target: bool, r: usize) -> bool {
    if exists|i: int| 0 <= i < s.len() && s[i] == target {
        is_first_with(s, target, r as int)
    } else {
        r == 0
    }
}

/// A packed bit sequence: `len` logical bits stored in `bytes`, the first
/// logical bit standing at bit position `offset` of the first byte. It
/// serves both as the values of a boolean chunk and as a validity bitmap,
/// where 1 marks a present value and 0 a null.
pub struct Bitmap {
    pub bytes: Vec<u8>,
    pub offset: usize,
    pub len: usize,
}

impl View for Bitmap {
    type V = Seq<bool>;

    open spec fn view(&self) -> Seq<bool> {
        Seq::new(self.len as nat, |i: int| bit_in_bytes(self.bytes@, self.offset + i))
    }
}

impl Bitmap {
    pub open spec fn wf(&self) -> bool {
        &&& self.offset < 8
        &&& self.offset + self.len <= self.bytes@.len() * 8
        &&& self.offset + self.len <= usize::MAX
    }

    /// The bit at logical position `i`.
    pub fn bit(&self, i: usize) -> (r: bool)
        requires
            self.wf(),
            i < self.len,
        ensures
            r == self@[i as int],
    {
        let k = self.offset + i;
        proof {
            assert(k / 8 < self.bytes@.len()) by (nonlinear_arith)
                requires
                    k < self.bytes@.len() * 8,
                    k >= 0,
            ;
        }
        let byte = self.bytes[k / 8];
        let sh = (k % 8) as u64;
        ((byte as u64) >> sh) & 1u64 == 1u64
    }

    /// How many bits are unset: the null count of a validity bitmap.
    pub fn unset_bits(&self) -> (r: usize)
        requires
            self.wf(),
        ensures
            r == count_unset(self@),
    {
        let mut count: usize = 0;
        let mut i: usize = 0;
        while i < self.len
            invariant
                self.wf(),
                i <= self.len,
                count == count_unset(self@.take(i as int)),
            decreases self.len - i,
        {
            proof {
                lemma_count_unset_take_succ(self@, i as int);
                lemma_count_unset_le(self@.take(i as int));
                assert(self@.take(i as int).len() == i);
            }
            if !self.bit(i) {
                count = count + 1;
            }
            i = i + 1;
        }
        proof {
            assert(self@.take(self.len as int) =~= self@);
        }
        count
    }
}

pub proof fn lemma_count_unset_le(s: Seq<bool>)
    ensures
        count_unset(s) <= s.len(),
    decreases s.len(),
{
    if s.len() > 0 {
        lemma_count_unset_le(s.drop_last());
    }
}

pub proof fn lemma_count_unset_take_succ(s: Seq<bool>, i: int)
    requires
        0 <= i < s.len(),
    ensures
        count_unset(s.take(i + 1)) == count_unset(s.take(i)) + (if s[i] {
            0nat
        } else {
            1nat
        }),
{
    assert(s.take(i + 1).drop_last() =~= s.take(i));
    assert(s.take(i + 1).last() == s[i]);
}

/// A bitmap with no unset bit is all ones.
pub proof fn lemma_count_unset_zero(s: Seq<bool>)
    requires
        count_unset(s) == 0,
    ensures
        forall|i: int| 0 <= i < s.len() ==> s[i],
    decreases s.len(),
{
    if s.len() > 0 {
        lemma_count_unset_zero(s.drop_last());
        assert forall|i: int| 0 <= i < s.len() implies s[i] by {
            if i < s.len() - 1 {
                assert(s.drop_last()[i] == s[i]);
            } else {
                assert(s.last());
            }
        }
    }
}

/// A bitmap whose every bit is unset is all zeros.
pub proof fn lemma_count_unset_full(s: Seq<bool>)
    requires
        count_unset(s) == s.len(),
    ensures
        forall|i: int| 0 <= i < s.len() ==> !s[i],
    decreases s.len(),
{
    if s.len() > 0 {
        lemma_count_unset_le(s.drop_last());
        assert(!s.last());
        lemma_count_unset_full(s.drop_last());
        assert forall|i: int| 0 <= i < s.len() implies !s[i] by {
            if i < s.len() - 1 {
                assert(s.drop_last()[i] == s[i]);
            }
        }
    }
}

/// Position of the first set bit of a machine word, 64 when there is none.
/// On the little-endian layout used here the first stored bit of a word is
/// its least significant, so the count is of trailing zeros.
pub fn get_leading_zeroes(chunk: u64) -> (r: u32)
    ensures
        r <= 64,
        (r == 64) == (chunk == 0),
        forall|j: int| 0 <= j < r ==> !word_bit(chunk, j),
        r < 64 ==> word_bit(chunk, r as int),
{
    proof {
        axiom_u64_trailing_zeros(chunk);
    }
    let r = chunk.trailing_zeros();
    proof {
        assert forall|j: int| 0 <= j < r implies !word_bit(chunk, j) by {
            let ju = j as u64;
            assert((chunk >> ju) & 1u64 == 0u64);
        }
    }
    r
}

/// Position of the first unset bit of a machine word, 64 when there is none:
/// the trailing-one count on this little-endian layout.
pub fn get_leading_ones(chunk: u64) -> (r: u32)
    ensures
        r <= 64,
        (r == 64) == (chunk == 0xffff_ffff_ffff_ffffu64),
        forall|j: int| 0 <= j < r ==> word_bit(chunk, j),
        r < 64 ==> !word_bit(chunk, r as int),
{
    proof {
        axiom_u64_trailing_ones(chunk);
    }
    let r = chunk.trailing_ones();
    proof {
        assert forall|j: int| 0 <= j < r implies word_bit(chunk, j) by {
            let ju = j as u64;
            assert((chunk >> ju) & 1u64 == 1u64);
        }
        if r < 64 {
            assert((chunk >> (r as u64)) & 1u64 == 0u64);
        }
    }
    r
}

proof fn lemma_load_word_bits(w: u64, b0: u8, b1: u8, b2: u8, b3: u8, b4: u8, b5: u8, b6: u8, b7: u8)
    requires
        w == (b0 as u64) | ((b1 as u64) << 8u64) | ((b2 as u64) << 16u64) | ((b3 as u64)
            << 24u64) | ((b4 as u64) << 32u64) | ((b5 as u64) << 40u64) | ((b6 as u64) << 48u64) | (
        (b7 as u64) << 56u64),
    ensures
        forall|r: u64| r < 8 ==> ((w >> r) & 1u64) == (#[trigger] (((b0 as u64) >> r) & 1u64)),
        forall|r: u64| r < 8 ==> ((w >> (8 + r)) & 1u64) == (#[trigger] (((b1 as u64) >> r) & 1u64)),
        forall|r: u64| r < 8 ==> ((w >> (16 + r)) & 1u64) == (#[trigger] (((b2 as u64) >> r) & 1u64)),
        forall|r: u64| r < 8 ==> ((w >> (24 + r)) & 1u64) == (#[trigger] (((b3 as u64) >> r) & 1u64)),
        forall|r: u64| r < 8 ==> ((w >> (32 + r)) & 1u64) == (#[trigger] (((b4 as u64) >> r) & 1u64)),
        forall|r: u64| r < 8 ==> ((w >> (40 + r)) & 1u64) == (#[trigger] (((b5 as u64) >> r) & 1u64)),
        forall|r: u64| r < 8 ==> ((w >> (48 + r)) & 1u64) == (#[trigger] (((b6 as u64) >> r) & 1u64)),
        forall|r: u64| r < 8 ==> ((w >> (56 + r)) & 1u64) == (#[trigger] (((b7 as u64) >> r) & 1u64)),
{
    assert(forall|r: u64|
        r < 8 ==> ((w >> r) & 1u64) == (#[trigger] (((b0 as u64) >> r) & 1u64))) by (bit_vector)
        requires
            w == (b0 as u64) | ((b1 as u64) << 8u64) | ((b2 as u64) << 16u64) | ((b3 as u64)
                << 24u64) | ((b4 as u64) << 32u64) | ((b5 as u64) << 40u64) | ((b6 as u64)
                << 48u64) | ((b7 as u64) << 56u64),
    ;
    assert(forall|r: u64|
        r < 8 ==> ((w >> (8 + r)) & 1u64) == (#[trigger] (((b1 as u64) >> r) & 1u64))) by (bit_vector)
        requires
            w == (b0 as u64) | ((b1 as u64) << 8u64) | ((b2 as u64) << 16u64) | ((b3 as u64)
                << 24u64) | ((b4 as u64) << 32u64) | ((b5 as u64) << 40u64) | ((b6 as u64)
                << 48u64) | ((b7 as u64) << 56u64),
    ;
    assert(forall|r: u64|
        r < 8 ==> ((w >> (16 + r)) & 1u64) == (#[trigger] (((b2 as u64) >> r) & 1u64))) by (bit_vector)
        requires
            w == (b0 as u64) | ((b1 as u64) << 8u64) | ((b2 as u64) << 16u64) | ((b3 as u64)
                << 24u64) | ((b4 as u64) << 32u64) | ((b5 as u64) << 40u64) | ((b6 as u64)
                << 48u64) | ((b7 as u64) << 56u64),
    ;
    assert(forall|r: u64|
        r < 8 ==> ((w >> (24 + r)) & 1u64) == (#[trigger] (((b3 as u64) >> r) & 1u64))) by (bit_vector)
        requires
            w == (b0 as u64) | ((b1 as u64) << 8u64) | ((b2 as u64) << 16u64) | ((b3 as u64)
                << 24u64) | ((b4 as u64) << 32u64) | ((b5 as u64) << 40u64) | ((b6 as u64)
                << 48u64) | ((b7 as u64) << 56u64),
    ;
    assert(forall|r: u64|
        r < 8 ==> ((w >> (32 + r)) & 1u64) == (#[trigger] (((b4 as u64) >> r) & 1u64))) by (bit_vector)
        requires
            w == (b0 as u64) | ((b1 as u64) << 8u64) | ((b2 as u64) << 16u64) | ((b3 as u64)
                << 24u64) | ((b4 as u64) << 32u64) | ((b5 as u64) << 40u64) | ((b6 as u64)
                << 48u64) | ((b7 as u64) << 56u64),
    ;
    assert(forall|r: u64|
        r < 8 ==> ((w >> (40 + r)) & 1u64) == (#[trigger] (((b5 as u64) >> r) & 1u64))) by (bit_vector)
        requires
            w == (b0 as u64) | ((b1 as u64) << 8u64) | ((b2 as u64) << 16u64) | ((b3 as u64)
                << 24u64) | ((b4 as u64) << 32u64) | ((b5 as u64) << 40u64) | ((b6 as u64)
                << 48u64) | ((b7 as u64) << 56u64),
    ;
    assert(forall|r: u64|
        r < 8 ==> ((w >> (48 + r)) & 1u64) == (#[trigger] (((b6 as u64) >> r) & 1u64))) by (bit_vector)
        requires
            w == (b0 as u64) | ((b1 as u64) << 8u64) | ((b2 as u64) << 16u64) | ((b3 as u64)
                << 24u64) | ((b4 as u64) << 32u64) | ((b5 as u64) << 40u64) | ((b6 as u64)
                << 48u64) | ((b7 as u64) << 56u64),
    ;
    assert(forall|r: u64|
        r < 8 ==> ((w >> (56 + r)) & 1u64) == (#[trigger] (((b7 as u64) >> r) & 1u64))) by (bit_vector)
        requires
            w == (b0 as u64) | ((b1 as u64) << 8u64) | ((b2 as u64) << 16u64) | ((b3 as u64)
                << 24u64) | ((b4 as u64) << 32u64) | ((b5 as u64) << 40u64) | ((b6 as u64)
                << 48u64) | ((b7 as u64) << 56u64),
    ;
}

/// Loads the 64-bit word stored at bytes `p .. p + 8`, first byte least
/// significant, so that bit `j` of the word is bit `p * 8 + j` of the store.
fn load_word(bytes: &Vec<u8>, p: usize) -> (w: u64)
    requires
        p + 8 <= bytes@.len(),
    ensures
        forall|j: int| 0 <= j < 64 ==> #[trigger] word_bit(w, j) == bit_in_bytes(bytes@, p * 8 + j),
{
    let n = bytes.len();
    proof {
        assert(p + 8 <= n);
    }
    let b0 = bytes[p];
    let b1 = bytes[p + 1];
    let b2 = bytes[p + 2];
    let b3 = bytes[p + 3];
    let b4 = bytes[p + 4];
    let b5 = bytes[p + 5];
    let b6 = bytes[p + 6];
    let b7 = bytes[p + 7];
    let w: u64 = (b0 as u64) | ((b1 as u64) << 8u64) | ((b2 as u64) << 16u64) | ((b3 as u64)
        << 24u64) | ((b4 as u64) << 32u64) | ((b5 as u64) << 40u64) | ((b6 as u64) << 48u64) | ((
    b7 as u64) << 56u64);
    proof {
        lemma_load_word_bits(w, b0, b1, b2, b3, b4, b5, b6, b7);
        assert forall|j: int| 0 <= j < 64 implies #[trigger] word_bit(w, j) == bit_in_bytes(
            bytes@,
            p * 8 + j,
        ) by {
            let k = p * 8 + j;
            lemma_fundamental_div_mod(j, 8);
            lemma_fundamental_div_mod_converse(k, 8, p + j / 8, j % 8);
            assert(k / 8 == p + j / 8);
            assert(k % 8 == j % 8);
            let m = j / 8;
            let r = j % 8;
            let ru = r as u64;
            assert(j as u64 == (8 * m + ru) as u64);
            if m == 0 {
                assert(((w >> (j as u64)) & 1u64) == (((b0 as u64) >> ru) & 1u64));
            } else if m == 1 {
                assert(j as u64 == 8 + ru);
                assert(((w >> (j as u64)) & 1u64) == (((b1 as u64) >> ru) & 1u64));
            } else if m == 2 {
                assert(j as u64 == 16 + ru);
                assert(((w >> (j as u64)) & 1u64) == (((b2 as u64) >> ru) & 1u64));
            } else if m == 3 {
                assert(j as u64 == 24 + ru);
                assert(((w >> (j as u64)) & 1u64) == (((b3 as u64) >> ru) & 1u64));
            } else if m == 4 {
                assert(j as u64 == 32 + ru);
                assert(((w >> (j as u64)) & 1u64) == (((b4 as u64) >> ru) & 1u64));
            } else if m == 5 {
                assert(j as u64 == 40 + ru);
                assert(((w >> (j as u64)) & 1u64) == (((b5 as u64) >> ru) & 1u64));
            } else if m == 6 {
                assert(j as u64 == 48 + ru);
                assert(((w >> (j as u64)) & 1u64) == (((b6 as u64) >> ru) & 1u64));
            } else {
                assert(m == 7);
                assert(j as u64 == 56 + ru);
                assert(((w >> (j as u64)) & 1u64) == (((b7 as u64) >> ru) & 1u64));
            }
        }
    }
    w
}

/// The scan behind [`first_set_bit`]: leading bits one at a time until a
/// byte boundary, then whole 64-bit words through the trailing-zero count
/// (a word with no match advances the total by 64), then the remainder
/// bits one at a time. Answers 0 when no bit is set.
pub fn first_set_bit_impl(mask: &Bitmap) -> (r: usize)
    requires
        mask.wf(),
    ensures
        scan_result(mask@, true, r),
{
    let mut i: usize = 0;
    while i < mask.len && (mask.offset + i) % 8 != 0
        invariant
            mask.wf(),
            i <= mask.len,
            forall|j: int| 0 <= j < i ==> mask@[j] != true,
        decreases mask.len - i,
    {
        if mask.bit(i) {
            return i;
        }
        i = i + 1;
    }
    while mask.len - i >= 64
        invariant
            mask.wf(),
            i <= mask.len,
            forall|j: int| 0 <= j < i ==> mask@[j] != true,
            (mask.offset + i) % 8 == 0 || i == mask.len,
        decreases mask.len - i,
    {
        let p = (mask.offset + i) / 8;
        proof {
            lemma_fundamental_div_mod((mask.offset + i) as int, 8);
            assert(p * 8 == mask.offset + i);
            assert(p + 8 <= mask.bytes@.len()) by (nonlinear_arith)
                requires
                    p * 8 == mask.offset + i,
                    mask.offset + i + 64 <= mask.bytes@.len() * 8,
            ;
        }
        let w = load_word(&mask.bytes, p);
        proof {
            assert forall|j: int| 0 <= j < 64 implies word_bit(w, j) == mask@[i + j] by {
                assert(word_bit(w, j) == bit_in_bytes(mask.bytes@, p * 8 + j));
            }
        }
        let pos = get_leading_zeroes(w);
        if pos < 64 {
            let res = i + (pos as usize);
            proof {
                assert(mask@[res as int] == word_bit(w, pos as int));
                assert forall|j: int| 0 <= j < res implies mask@[j] != true by {
                    if j >= i {
                        assert(word_bit(w, j - i) == mask@[i + (j - i)]);
                    }
                }
            }
            return res;
        }
        proof {
            assert forall|j: int| 0 <= j < i + 64 implies mask@[j] != true by {
                if j >= i {
                    assert(word_bit(w, j - i) == mask@[i + (j - i)]);
                }
            }
        }
        i = i + 64;
    }
    while i < mask.len
        invariant
            mask.wf(),
            i <= mask.len,
            forall|j: int| 0 <= j < i ==> mask@[j] != true,
        decreases mask.len - i,
    {
        if mask.bit(i) {
            return i;
        }
        i = i + 1;
    }
    0
}

/// Index of the first set bit: the position of the first `true` value of a
/// single-chunk boolean sequence without nulls. When every bit is unset
/// there is no such position and the answer is the boundary index 0; when
/// every bit is set the first position trivially is 0, with no scan either
/// way.
pub fn first_set_bit(mask: &Bitmap) -> (r: usize)
    requires
        mask.wf(),
    ensures
        scan_result(mask@, true, r),
{
    let unset = mask.unset_bits();
    if unset == 0 || unset == mask.len {
        proof {
            if unset == 0 {
                lemma_count_unset_zero(mask@);
            } else {
                lemma_count_unset_full(mask@);
            }
        }
        return 0;
    }
    first_set_bit_impl(mask)
}

/// The scan behind [`first_unset_bit`], the mirror image of
/// [`first_set_bit_impl`]: whole words through the trailing-one count.
pub fn first_unset_bit_impl(mask: &Bitmap) -> (r: usize)
    requires
        mask.wf(),
    ensures
        scan_result(mask@, false, r),
{
    let mut i: usize = 0;
    while i < mask.len && (mask.offset + i) % 8 != 0
        invariant
            mask.wf(),
            i <= mask.len,
            forall|j: int| 0 <= j < i ==> mask@[j] != false,
        decreases mask.len - i,
    {
        if !mask.bit(i) {
            return i;
        }
        i = i + 1;
    }
    while mask.len - i >= 64
        invariant
            mask.wf(),
            i <= mask.len,
            forall|j: int| 0 <= j < i ==> mask@[j] != false,
            (mask.offset + i) % 8 == 0 || i == mask.len,
        decreases mask.len - i,
    {
        let p = (mask.offset + i) / 8;
        proof {
            lemma_fundamental_div_mod((mask.offset + i) as int, 8);
            assert(p * 8 == mask.offset + i);
            assert(p + 8 <= mask.bytes@.len()) by (nonlinear_arith)
                requires
                    p * 8 == mask.offset + i,
                    mask.offset + i + 64 <= mask.bytes@.len() * 8,
            ;
        }
        let w = load_word(&mask.bytes, p);
        proof {
            assert forall|j: int| 0 <= j < 64 implies word_bit(w, j) == mask@[i + j] by {
                assert(word_bit(w, j) == bit_in_bytes(mask.bytes@, p * 8 + j));
            }
        }
        let pos = get_leading_ones(w);
        if pos < 64 {
            let res = i + (pos as usize);
            proof {
                assert(mask@[res as int] == word_bit(w, pos as int));
                assert forall|j: int| 0 <= j < res implies mask@[j] != false by {
                    if j >= i {
                        assert(word_bit(w, j - i) == mask@[i + (j - i)]);
                    }
                }
            }
            return res;
        }
        proof {
            assert forall|j: int| 0 <= j < i + 64 implies mask@[j] != false by {
                if j >= i {
                    assert(word_bit(w, j - i) == mask@[i + (j - i)]);
                }
            }
        }
        i = i + 64;
    }
    while i < mask.len
        invariant
            mask.wf(),
            i <= mask.len,
            forall|j: int| 0 <= j < i ==> mask@[j] != false,
        decreases mask.len - i,
    {
        if !mask.bit(i) {
            return i;
        }
        i = i + 1;
    }
    0
}

/// Index of the first unset bit: the position of the first `false` value of
/// a single-chunk boolean sequence without nulls, with the same degenerate
/// convention as [`first_set_bit`].
pub fn first_unset_bit(mask: &Bitmap) -> (r: usize)
    requires
        mask.wf(),
    ensures
        scan_result(mask@, false, r),
{
    let unset = mask.unset_bits();
    if unset == 0 || unset == mask.len {
        proof {
            if unset == 0 {
                lemma_count_unset_zero(mask@);
            } else {
                lemma_count_unset_full(mask@);
            }
        }
        return 0;
    }
    first_unset_bit_impl(mask)
}

} // verus!
