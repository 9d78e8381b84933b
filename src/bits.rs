//! Most-significant-bit-first bit sequences: the model of the packed form
//! of entropy, checksum and word indices, and the buffer that builds it.
use vstd::arithmetic::power2::{lemma2_to64, lemma_pow2_strictly_increases, lemma_pow2_unfold, pow2};
use vstd::prelude::*;

use crate::Bits11;

verus! {

/// The `w` low bits of `v`, most significant first.
pub open spec fn msb_bits(v: u16, w: nat) -> Seq<bool> {
    Seq::new(w, |i: int| (v >> ((w - 1 - i) as u16)) & 1u16 == 1u16)
}

/// The 8 bits of a byte, most significant first.
pub open spec fn byte_bits(b: u8) -> Seq<bool> {
    msb_bits(b as u16, 8)
}

/// The 11 significant bits of an index, most significant first.
pub open spec fn index_bits(v: u16) -> Seq<bool> {
    msb_bits(v, 11)
}

/// The bits of a byte string, byte after byte.
pub open spec fn bytes_bits(s: Seq<u8>) -> Seq<bool>
    decreases s.len(),
{
    if s.len() == 0 {
        Seq::empty()
    } else {
        bytes_bits(s.drop_last()) + byte_bits(s.last())
    }
}

/// The bits of a sequence of indices, eleven per index.
pub open spec fn indices_bits(s: Seq<u16>) -> Seq<bool>
    decreases s.len(),
{
    if s.len() == 0 {
        Seq::empty()
    } else {
        indices_bits(s.drop_last()) + index_bits(s.last())
    }
}

/// The unsigned number that a bit sequence spells, most significant bit first.
pub open spec fn bits_value(bits: Seq<bool>) -> nat
    decreases bits.len(),
{
    if bits.len() == 0 {
        0
    } else {
        2 * bits_value(bits.drop_last()) + if bits.last() {
            1nat
        } else {
            0nat
        }
    }
}

/// Consecutive non-overlapping runs of 11 bits, as indices; a shorter tail is dropped.
pub open spec fn bits_to_indices(bits: Seq<bool>) -> Seq<u16> {
    Seq::new(bits.len() / 11, |j: int| bits_value(bits.subrange(11 * j, 11 * j + 11)) as u16)
}

/// Consecutive non-overlapping runs of 8 bits, as bytes; a shorter tail is dropped.
pub open spec fn bits_to_bytes(bits: Seq<bool>) -> Seq<u8> {
    Seq::new(bits.len() / 8, |j: int| bits_value(bits.subrange(8 * j, 8 * j + 8)) as u8)
}

pub proof fn lemma_bits_value_bound(bits: Seq<bool>)
    ensures
        bits_value(bits) < pow2(bits.len()),
    decreases bits.len(),
{
    if bits.len() == 0 {
        lemma2_to64();
    } else {
        lemma_bits_value_bound(bits.drop_last());
        lemma_pow2_unfold(bits.len());
    }
}

/// Two bit sequences of one length that spell the same number are equal.
pub proof fn lemma_bits_value_injective(s: Seq<bool>, t: Seq<bool>)
    requires
        s.len() == t.len(),
        bits_value(s) == bits_value(t),
    ensures
        s == t,
    decreases s.len(),
{
    if s.len() == 0 {
        assert(s =~= t);
    } else {
        lemma_bits_value_injective(s.drop_last(), t.drop_last());
        assert(s =~= s.drop_last().push(s.last()));
        assert(t =~= t.drop_last().push(t.last()));
    }
}

/// Spelling out the `w` low bits of a number below `2^w` gives the number back.
pub proof fn lemma_msb_bits_value(v: u16, w: nat)
    requires
        w <= 11,
        v < pow2(w),
    ensures
        bits_value(msb_bits(v, w)) == v,
    decreases w,
{
    lemma2_to64();
    if w == 0 {
    } else {
        let s = msb_bits(v, w);
        let h: u16 = v >> 1u16;
        assert forall|i: int| 0 <= i < w - 1 implies #[trigger] s.drop_last()[i] == msb_bits(
            h,
            (w - 1) as nat,
        )[i] by {
            let k: u16 = (w - 2 - i) as u16;
            assert((v >> ((k + 1) as u16)) & 1u16 == ((v >> 1u16) >> k) & 1u16) by (bit_vector)
                requires
                    k < 11,
            ;
        }
        assert(s.drop_last() =~= msb_bits(h, (w - 1) as nat));
        assert(h == v / 2) by (bit_vector)
            requires
                h == v >> 1u16,
        ;
        lemma_pow2_unfold(w);
        lemma_msb_bits_value(h, (w - 1) as nat);
        assert(v == 2 * h + (v & 1u16) && (v & 1u16) < 2 && (v >> 0u16) == v) by (bit_vector)
            requires
                h == v >> 1u16,
        ;
    }
}

/// Reading back eleven bits as an index and spelling it out again gives the same bits.
pub proof fn lemma_index_bits_of_value(bits: Seq<bool>)
    requires
        bits.len() == 11,
    ensures
        bits_value(bits) < 2048,
        index_bits(bits_value(bits) as u16) == bits,
{
    lemma2_to64();
    lemma_bits_value_bound(bits);
    let v = bits_value(bits) as u16;
    lemma_msb_bits_value(v, 11);
    lemma_bits_value_injective(index_bits(v), bits);
}

/// Reading back eight bits as a byte and spelling it out again gives the same bits.
pub proof fn lemma_byte_bits_of_value(bits: Seq<bool>)
    requires
        bits.len() == 8,
    ensures
        bits_value(bits) < 256,
        byte_bits(bits_value(bits) as u8) == bits,
{
    lemma2_to64();
    lemma_bits_value_bound(bits);
    let v = bits_value(bits) as u8;
    lemma_msb_bits_value(v as u16, 8);
    lemma_bits_value_injective(byte_bits(v), bits);
}

/// Bit `t` of byte `j` of a byte string stands at position `8 * j + t` of its bits.
pub proof fn lemma_bytes_bits_index(s: Seq<u8>)
    ensures
        bytes_bits(s).len() == 8 * s.len(),
        forall|j: int, t: int|
            0 <= j < s.len() && 0 <= t < 8 ==> #[trigger] bytes_bits(s)[8 * j + t] == byte_bits(
                s[j],
            )[t],
    decreases s.len(),
{
    if s.len() > 0 {
        lemma_bytes_bits_index(s.drop_last());
    }
}

/// Bit `t` of index `j` stands at position `11 * j + t` of the bits of an index sequence.
pub proof fn lemma_indices_bits_index(s: Seq<u16>)
    ensures
        indices_bits(s).len() == 11 * s.len(),
        forall|j: int, t: int|
            0 <= j < s.len() && 0 <= t < 11 ==> #[trigger] indices_bits(s)[11 * j + t]
                == index_bits(s[j])[t],
    decreases s.len(),
{
    if s.len() > 0 {
        lemma_indices_bits_index(s.drop_last());
    }
}

pub proof fn lemma_bytes_bits_len(s: Seq<u8>)
    ensures
        bytes_bits(s).len() == 8 * s.len(),
    decreases s.len(),
{
    if s.len() > 0 {
        lemma_bytes_bits_len(s.drop_last());
    }
}

/// Cutting the bits of a byte string back into bytes gives the byte string.
pub proof fn lemma_bytes_round_trip(s: Seq<u8>)
    ensures
        bits_to_bytes(bytes_bits(s)) == s,
{
    lemma2_to64();
    lemma_bytes_bits_index(s);
    let b = bytes_bits(s);
    assert forall|j: int| 0 <= j < s.len() implies #[trigger] bits_to_bytes(b)[j] == s[j] by {
        assert(b.subrange(8 * j, 8 * j + 8) =~= byte_bits(s[j])) by {
            assert forall|t: int| 0 <= t < 8 implies b.subrange(8 * j, 8 * j + 8)[t] == byte_bits(
                s[j],
            )[t] by {
                assert(b[8 * j + t] == byte_bits(s[j])[t]);
            }
        }
        lemma_msb_bits_value(s[j] as u16, 8);
    }
    assert(bits_to_bytes(b) =~= s);
}

/// Spelling out the indices read from a bit sequence gives back its bits,
/// up to the last whole run of eleven.
pub proof fn lemma_indices_round_trip(bits: Seq<bool>)
    ensures
        indices_bits(bits_to_indices(bits)) == bits.take((11 * (bits.len() / 11)) as int),
{
    let idx = bits_to_indices(bits);
    let n = bits.len() / 11;
    lemma_indices_bits_index(idx);
    assert forall|k: int| 0 <= k < 11 * n implies #[trigger] indices_bits(idx)[k] == bits[k] by {
        let j = k / 11;
        let t = k % 11;
        assert(k == 11 * j + t);
        let run = bits.subrange(11 * j, 11 * j + 11);
        lemma_index_bits_of_value(run);
        assert(indices_bits(idx)[11 * j + t] == index_bits(idx[j])[t]);
        assert(run[t] == bits[k]);
    }
    assert(indices_bits(idx) =~= bits.take((11 * n) as int));
}

/// The leading `c` bits of a byte spell the byte shifted right by `8 - c`.
pub proof fn lemma_byte_bits_prefix(b: u8, c: nat)
    requires
        4 <= c <= 8,
    ensures
        bits_value(byte_bits(b).take(c as int)) == (b >> ((8 - c) as u8)) as nat,
{
    lemma2_to64();
    let v = b as u16;
    let k: u16 = (8 - c) as u16;
    let h: u16 = v >> k;
    assert forall|i: int| 0 <= i < c implies #[trigger] byte_bits(b).take(c as int)[i] == msb_bits(
        h,
        c,
    )[i] by {
        let m: u16 = (c - 1 - i) as u16;
        assert((v >> ((k + m) as u16)) & 1u16 == ((v >> k) >> m) & 1u16) by (bit_vector)
            requires
                k <= 4,
                m < 8,
        ;
    }
    assert(byte_bits(b).take(c as int) =~= msb_bits(h, c));
    assert(h < 256u16 >> k && (b >> (k as u8)) as u16 == h) by (bit_vector)
        requires
            v == b as u16,
            h == v >> k,
            k <= 4,
    ;
    assert(k == 0 || k == 1 || k == 2 || k == 3 || k == 4);
    assert(256u16 >> 0u16 == 256 && 256u16 >> 1u16 == 128 && 256u16 >> 2u16 == 64 && 256u16 >> 3u16
        == 32 && 256u16 >> 4u16 == 16) by (bit_vector);
    lemma_msb_bits_value(h, c);
}

/// A growable bit sequence, filled most significant bit first.
pub(crate) struct BitsHelper {
    bits: Vec<bool>,
}

impl View for BitsHelper {
    type V = Seq<bool>;

    closed spec fn view(&self) -> Seq<bool> {
        self.bits@
    }
}

/// Relies on `zeroize::Zeroize` for `Vec<bool>`: the elements and the spare
/// capacity are overwritten with `false` by volatile writes, then the vector
/// is cleared.
#[verifier::external_body]
fn wipe_bits(v: &mut Vec<bool>)
    ensures
        final(v)@.len() == 0,
    opens_invariants none
    no_unwind
{
    zeroize::Zeroize::zeroize(v)
}

impl Drop for BitsHelper {
    /// Wipes the bits, which carry the entropy, when the buffer goes away.
    fn drop(&mut self)
        opens_invariants none
        no_unwind
    {
        wipe_bits(&mut self.bits);
    }
}

impl BitsHelper {
    pub(crate) fn with_capacity(cap: usize) -> (r: Self)
        ensures
            r@ == Seq::<bool>::empty(),
    {
        BitsHelper { bits: Vec::with_capacity(cap) }
    }

    pub(crate) fn len(&self) -> (r: usize)
        ensures
            r == self@.len(),
    {
        self.bits.len()
    }

    /// Appends the 8 bits of `byte`, most significant first.
    pub(crate) fn extend_from_byte(&mut self, byte: u8)
        ensures
            final(self)@ == old(self)@ + byte_bits(byte),
    {
        let v: u16 = byte as u16;
        let mut i: usize = 0;
        while i < 8
            invariant
                i <= 8,
                v == byte as u16,
                self@ == old(self)@ + byte_bits(byte).take(i as int),
            decreases 8 - i,
        {
            let bit = (v >> ((7 - i) as u16)) & 1u16 == 1u16;
            self.bits.push(bit);
            i = i + 1;
            assert(self@ =~= old(self)@ + byte_bits(byte).take(i as int));
        }
        assert(byte_bits(byte).take(8) =~= byte_bits(byte));
    }

    /// Appends the 11 significant bits of an index, most significant first.
    pub(crate) fn extend_from_bits11(&mut self, bits11: &Bits11)
        ensures
            final(self)@ == old(self)@ + index_bits(bits11@),
    {
        let v: u16 = bits11.bits();
        let mut i: usize = 0;
        while i < 11
            invariant
                i <= 11,
                v == bits11@,
                self@ == old(self)@ + index_bits(v).take(i as int),
            decreases 11 - i,
        {
            let bit = (v >> ((10 - i) as u16)) & 1u16 == 1u16;
            self.bits.push(bit);
            i = i + 1;
            assert(self@ =~= old(self)@ + index_bits(v).take(i as int));
        }
        assert(index_bits(v).take(11) =~= index_bits(v));
    }

    /// The number spelled by the `n` bits starting at `start`.
    pub(crate) fn read_group(&self, start: usize, n: usize) -> (r: u16)
        requires
            n <= 11,
            start + n <= self@.len(),
        ensures
            r as nat == bits_value(self@.subrange(start as int, start + n)),
    {
        let len = self.bits.len();
        let mut acc: u16 = 0;
        let mut i: usize = 0;
        proof {
            lemma2_to64();
        }
        while i < n
            invariant
                i <= n <= 11,
                start + n <= self@.len(),
                len == self@.len(),
                acc as nat == bits_value(self@.subrange(start as int, start + i)),
                acc < pow2(i as nat),
            decreases n - i,
        {
            proof {
                lemma2_to64();
                lemma_pow2_unfold((i + 1) as nat);
                assert(pow2(i as nat) <= pow2(11)) by {
                    lemma_pow2_strictly_increases(i as nat, 11);
                }
            }
            let bit: u16 = if self.bits[start + i] {
                1
            } else {
                0
            };
            acc = acc * 2 + bit;
            i = i + 1;
            assert(self@.subrange(start as int, start + i).drop_last() =~= self@.subrange(
                start as int,
                start + i - 1,
            ));
        }
        acc
    }
}

} // verus!
