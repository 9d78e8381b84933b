//! What holds of encoding and decoding taken together.
use vstd::prelude::*;

use crate::bits::{
    bits_to_indices, bits_value, byte_bits, index_bits, bytes_bits, indices_bits, lemma_byte_bits_prefix,
    lemma_bits_value_injective, lemma_bytes_bits_len, lemma_bytes_round_trip,
    lemma_bits_value_bound, lemma_indices_bits_index, lemma_indices_round_trip,
};
use crate::digest::sha256_digest;
use crate::error::ErrorMnemonic;
use crate::regular::{distinct_words, lemma_word_index_inverse, InternalWordList};
use crate::{decode, encode, is_entropy_len, is_word_count, phrase_of, AsWordList};
use vstd::arithmetic::power2::lemma2_to64;

verus! {

/// Decoding the indices that encode an entropy of a supported length gives
/// exactly that entropy back.
pub proof fn lemma_round_trip(entropy: Seq<u8>)
    requires
        is_entropy_len(entropy.len()),
    ensures
        decode(encode(entropy)) == Ok::<Seq<u8>, ErrorMnemonic>(entropy),
{
    let l = entropy.len() as int;
    let c8 = sha256_digest(entropy)[0];
    let full = entropy.push(c8);
    let b = bytes_bits(full);
    lemma_bytes_bits_len(full);
    lemma_bytes_bits_len(entropy);
    assert(full.drop_last() =~= entropy);
    let idx = encode(entropy);
    let n = idx.len() as int;
    assert(l == 16 || l == 20 || l == 24 || l == 28 || l == 32);
    assert(n == 3 * l / 4 && 32 * n / 3 == 8 * l && n / 3 == l / 4 && is_word_count(n as nat));
    lemma_indices_round_trip(b);
    let bits = indices_bits(idx);
    assert(bits.take(8 * l) =~= bytes_bits(entropy));
    lemma_bytes_round_trip(entropy);
    let c = l / 4;
    assert(bits.subrange(8 * l, 8 * l + c) =~= byte_bits(c8).take(c));
    lemma_byte_bits_prefix(c8, c as nat);
}

/// Spelling the encoding of an entropy of a supported length with a word
/// list of distinct words, and looking every word up again, gives back the
/// same indices; and these decode to exactly the entropy.
pub proof fn lemma_phrase_round_trip(list: &InternalWordList, entropy: Seq<u8>)
    requires
        is_entropy_len(entropy.len()),
        list.table().len() == 2048,
        distinct_words(list.table()),
    ensures
        forall|j: int|
            0 <= j < encode(entropy).len() ==> {
                let i = #[trigger] encode(entropy)[j];
                &&& list.word_spec(i) == Ok::<Seq<char>, ErrorMnemonic>(list.table()[i as int])
                &&& list.index_spec(list.table()[i as int]) == Ok::<u16, ErrorMnemonic>(i)
            },
        decode(encode(entropy)) == Ok::<Seq<u8>, ErrorMnemonic>(entropy),
{
    lemma_round_trip(entropy);
    let b = bytes_bits(entropy.push(sha256_digest(entropy)[0]));
    assert forall|j: int| 0 <= j < encode(entropy).len() implies {
        let i = #[trigger] encode(entropy)[j];
        &&& list.word_spec(i) == Ok::<Seq<char>, ErrorMnemonic>(list.table()[i as int])
        &&& list.index_spec(list.table()[i as int]) == Ok::<u16, ErrorMnemonic>(i)
    } by {
        lemma2_to64();
        lemma_bits_value_bound(b.subrange(11 * j, 11 * j + 11));
        lemma_word_index_inverse(list, encode(entropy)[j]);
    }
}

/// Encoding is a function of the entropy alone: equal entropies give equal
/// index sequences.
pub proof fn lemma_encode_deterministic(a: Seq<u8>, b: Seq<u8>)
    requires
        a == b,
    ensures
        encode(a) == encode(b),
{
}

/// Flipping any single checksum bit of an index sequence that decodes makes
/// decoding fail with `InvalidChecksum`.
pub proof fn lemma_checksum_bit_flip(indices: Seq<u16>, k: int)
    requires
        decode(indices).is_ok(),
        32 * indices.len() / 3 <= k < 11 * indices.len(),
    ensures
        decode(bits_to_indices(indices_bits(indices).update(k, !indices_bits(indices)[k])))
            == Err::<Seq<u8>, ErrorMnemonic>(ErrorMnemonic::InvalidChecksum),
{
    let n = indices.len() as int;
    lemma_indices_bits_index(indices);
    let bits = indices_bits(indices);
    let flipped = bits.update(k, !bits[k]);
    let other = bits_to_indices(flipped);
    lemma_indices_round_trip(flipped);
    assert(flipped.take(11 * n) =~= flipped);
    assert(other.len() == n);
    let e = 32 * n / 3;
    let c = n / 3;
    assert(e + c == 11 * n);
    assert(indices_bits(other).take(e as int) =~= bits.take(e as int));
    let f1 = bits.subrange(e as int, (e + c) as int);
    let f2 = flipped.subrange(e as int, (e + c) as int);
    assert(f1[k - e] != f2[k - e]);
    if bits_value(f1) == bits_value(f2) {
        lemma_bits_value_injective(f1, f2);
    }
}


/// Flipping any one of the low `n / 3` bits of the last of `n` indices that
/// decode (these bits carry the checksum) makes decoding fail with
/// `InvalidChecksum`.
pub proof fn lemma_last_index_bit_flip(indices: Seq<u16>, k: u16)
    requires
        decode(indices).is_ok(),
        k < indices.len() / 3,
    ensures
        decode(indices.update(indices.len() - 1, indices.last() ^ (1u16 << k)))
            == Err::<Seq<u8>, ErrorMnemonic>(ErrorMnemonic::InvalidChecksum),
{
    let n = indices.len() as int;
    let v = indices.last();
    let w: u16 = v ^ (1u16 << k);
    let changed = indices.update(n - 1, w);
    let bits = indices_bits(indices);
    let pos = 11 * n - 1 - k;
    lemma_indices_bits_index(indices);
    lemma_indices_bits_index(changed);
    assert(is_word_count(n as nat));
    let flipped = bits.update(pos, !bits[pos]);
    assert forall|q: int| 0 <= q < 11 * n implies #[trigger] indices_bits(changed)[q] == flipped[q] by {
        let j = q / 11;
        let t = q % 11;
        assert(q == 11 * j + t);
        assert(indices_bits(changed)[11 * j + t] == index_bits(changed[j])[t]);
        assert(bits[11 * j + t] == index_bits(indices[j])[t]);
        if j == n - 1 {
            let m: u16 = (10 - t) as u16;
            assert((((v ^ (1u16 << k)) >> m) & 1u16 == 1u16) == (if m == k {
                !((v >> m) & 1u16 == 1u16)
            } else {
                (v >> m) & 1u16 == 1u16
            })) by (bit_vector)
                requires
                    k < 8,
                    m < 11,
            ;
        }
    }
    assert(indices_bits(changed) =~= flipped);
    lemma_checksum_bit_flip(indices, pos);
    lemma_indices_round_trip(flipped);
    assert(flipped.take(11 * n) =~= flipped);
    assert(indices_bits(bits_to_indices(flipped)) == indices_bits(changed));
}


/// Words joined with a single space between two of them.
pub open spec fn join_words(words: Seq<Seq<char>>) -> Seq<char>
    decreases words.len(),
{
    if words.len() == 0 {
        Seq::empty()
    } else if words.len() == 1 {
        words[0]
    } else {
        join_words(words.drop_last()).push(' ') + words.last()
    }
}

/// A text cut at every space, as `str::split(' ')` cuts it: `n` spaces give
/// `n + 1` pieces, some possibly empty.
pub open spec fn split_words(text: Seq<char>) -> Seq<Seq<char>>
    decreases text.len(),
{
    if text.len() == 0 {
        seq![Seq::empty()]
    } else {
        let r = split_words(text.drop_last());
        if text.last() == ' ' {
            r.push(Seq::empty())
        } else {
            r.update(r.len() - 1, r.last().push(text.last()))
        }
    }
}

/// Splitting always gives at least one piece.
pub proof fn lemma_split_words_len(text: Seq<char>)
    ensures
        split_words(text).len() >= 1,
    decreases text.len(),
{
    if text.len() > 0 {
        lemma_split_words_len(text.drop_last());
    }
}

/// Appending a text without spaces extends the last piece.
pub proof fn lemma_split_append(text: Seq<char>, w: Seq<char>)
    requires
        !w.contains(' '),
    ensures
        split_words(text + w) == {
            let r = split_words(text);
            r.update(r.len() - 1, r.last() + w)
        },
    decreases w.len(),
{
    lemma_split_words_len(text);
    if w.len() == 0 {
        assert(text + w =~= text);
        let r = split_words(text);
        assert(r.last() + w =~= r.last());
        assert(r.update(r.len() - 1, r.last() + w) =~= r);
    } else {
        let wd = w.drop_last();
        assert(!wd.contains(' ')) by {
            if wd.contains(' ') {
                let i = choose|i: int| 0 <= i < wd.len() && wd[i] == ' ';
                assert(w[i] == ' ');
            }
        }
        assert(w.last() != ' ') by {
            assert(w[w.len() - 1] == w.last());
        }
        lemma_split_append(text, wd);
        assert((text + w).drop_last() =~= text + wd);
        assert((text + w).last() == w.last());
        let r = split_words(text);
        assert((r.last() + wd).push(w.last()) =~= r.last() + w);
        let r2 = r.update(r.len() - 1, r.last() + wd);
        assert(r2.update(r2.len() - 1, r2.last().push(w.last())) =~= r.update(
            r.len() - 1,
            r.last() + w,
        ));
    }
}

/// Splitting words that hold no space, joined with single spaces, gives the
/// words back.
pub proof fn lemma_split_join(words: Seq<Seq<char>>)
    requires
        words.len() >= 1,
        forall|j: int| 0 <= j < words.len() ==> !(#[trigger] words[j]).contains(' '),
    ensures
        split_words(join_words(words)) == words,
    decreases words.len(),
{
    if words.len() == 1 {
        lemma_split_append(Seq::empty(), words[0]);
        assert(Seq::<char>::empty() + words[0] =~= words[0]);
        assert(seq![Seq::<char>::empty()].update(0, Seq::<char>::empty() + words[0]) =~= words);
    } else {
        let dl = words.drop_last();
        assert(words[words.len() - 1] == words.last());
        lemma_split_join(dl);
        let p = join_words(dl).push(' ');
        assert(p.drop_last() =~= join_words(dl));
        lemma_split_append(p, words.last());
        assert(split_words(p) == dl.push(Seq::empty()));
        assert(Seq::<char>::empty() + words.last() =~= words.last());
        assert(dl.push(Seq::empty()).update(dl.len() as int, Seq::<char>::empty() + words.last())
            =~= words);
    }
}

/// The words of a table at the given indices, in order.
pub open spec fn words_at(list: &InternalWordList, indices: Seq<u16>) -> Seq<Seq<char>> {
    indices.map_values(|i: u16| list.table()[i as int])
}

/// The phrase of indices that a full table holds is its words joined with
/// single spaces.
pub proof fn lemma_phrase_is_join(list: &InternalWordList, indices: Seq<u16>)
    requires
        list.table().len() == 2048,
        forall|j: int| 0 <= j < indices.len() ==> #[trigger] indices[j] < 2048,
    ensures
        phrase_of(list, indices) == Ok::<Seq<char>, ErrorMnemonic>(join_words(words_at(list, indices))),
    decreases indices.len(),
{
    if indices.len() > 0 {
        let dl = indices.drop_last();
        assert(indices[indices.len() - 1] == indices.last());
        lemma_phrase_is_join(list, dl);
        assert(words_at(list, indices).drop_last() =~= words_at(list, dl));
    }
}

/// Encoding an entropy of a supported length and spelling it with a word
/// list of distinct words that hold no space gives a phrase; cutting the
/// phrase at its spaces and looking every piece up gives back the encoded
/// indices, one per piece and in order, and these decode to exactly the
/// entropy.
pub proof fn lemma_text_round_trip(list: &InternalWordList, entropy: Seq<u8>)
    requires
        is_entropy_len(entropy.len()),
        list.table().len() == 2048,
        distinct_words(list.table()),
        forall|i: int| 0 <= i < 2048 ==> !(#[trigger] list.table()[i]).contains(' '),
    ensures
        phrase_of(list, encode(entropy)) is Ok,
        ({
            let pieces = split_words(phrase_of(list, encode(entropy))->Ok_0);
            &&& pieces.len() == encode(entropy).len()
            &&& forall|j: int|
                0 <= j < pieces.len() ==> list.index_spec(#[trigger] pieces[j]) == Ok::<
                    u16,
                    ErrorMnemonic,
                >(encode(entropy)[j])
        }),
        decode(encode(entropy)) == Ok::<Seq<u8>, ErrorMnemonic>(entropy),
{
    lemma_phrase_round_trip(list, entropy);
    let idx = encode(entropy);
    let b = bytes_bits(entropy.push(sha256_digest(entropy)[0]));
    assert forall|j: int| 0 <= j < idx.len() implies #[trigger] idx[j] < 2048 by {
        lemma2_to64();
        lemma_bits_value_bound(b.subrange(11 * j, 11 * j + 11));
    }
    lemma_phrase_is_join(list, idx);
    let words = words_at(list, idx);
    assert(idx.len() >= 12) by {
        lemma_round_trip(entropy);
    }
    assert forall|j: int| 0 <= j < words.len() implies !(#[trigger] words[j]).contains(' ') by {
        assert(words[j] == list.table()[idx[j] as int]);
    }
    lemma_split_join(words);
    assert forall|j: int| 0 <= j < words.len() implies list.index_spec(#[trigger] words[j]) == Ok::<
        u16,
        ErrorMnemonic,
    >(idx[j]) by {
        lemma_word_index_inverse(list, idx[j]);
    }
}

} // verus!
