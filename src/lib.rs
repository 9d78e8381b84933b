use vstd::prelude::*;

pub mod bits;
pub mod digest;
pub mod error;
pub mod regular;
pub mod theorems;

use crate::bits::{
    bits_to_bytes, bits_to_indices, bits_value, bytes_bits, indices_bits, lemma_bits_value_bound,
    lemma_bytes_bits_len, lemma_indices_bits_index, BitsHelper,
};
use crate::digest::{sha256, sha256_digest};
pub use crate::error::ErrorMnemonic;
use vstd::arithmetic::power2::{lemma2_to64, pow2};
use vstd::string::StringExecFns;

verus! {

/// Number of words in a word list: every index fits in eleven bits.
pub const TOTAL_WORDS: usize = 2048;

/// Length of the longest word of the reference word list.
pub const WORD_MAX_LEN: usize = 8;

/// Length of the separator between two words of a phrase.
pub const SEPARATOR_LEN: usize = 1;

/// The largest number of indices a `WordSet` holds.
pub const MAX_SEED_LEN: usize = 24;

/// Bits per byte.
pub const BITS_IN_BYTE: usize = 8;

/// Significant bits per index.
pub const BITS_IN_U11: usize = 11;

/// An index into a 2048-word list: a value in `0..2048`.
#[derive(Clone, Copy, Debug)]
pub struct Bits11(u16);

impl View for Bits11 {
    type V = u16;

    closed spec fn view(&self) -> u16 {
        self.0
    }
}

impl Default for Bits11 {
    /// Index zero: the value a wiped index holds.
    fn default() -> (r: Self)
        ensures
            r@ == 0,
    {
        Bits11(0)
    }
}

/// Lets zeroize wipe indices by writing `Bits11::default()` over them.
impl zeroize::DefaultIsZeroes for Bits11 {}

impl Bits11 {
    #[verifier::type_invariant]
    spec fn in_range(self) -> bool {
        self.0 < 2048
    }

    /// The raw index value.
    pub fn bits(self) -> (r: u16)
        ensures
            r == self@,
            r < 2048,
    {
        proof {
            use_type_invariant(self);
        }
        self.0
    }

    /// Validating factory: succeeds exactly on values below 2048.
    pub fn from(i: u16) -> (r: Result<Self, ErrorMnemonic>)
        ensures
            (i < 2048) == r.is_ok(),
            r matches Ok(b) ==> b@ == i,
            r matches Err(e) ==> e == ErrorMnemonic::InvalidWordNumber,
    {
        if (i as usize) < TOTAL_WORDS {
            Ok(Bits11(i))
        } else {
            Err(ErrorMnemonic::InvalidWordNumber)
        }
    }
}

/// The word counts that a phrase may have.
pub open spec fn is_word_count(n: nat) -> bool {
    n == 12 || n == 15 || n == 18 || n == 21 || n == 24
}

/// The entropy lengths, in bytes, that can be encoded.
pub open spec fn is_entropy_len(n: nat) -> bool {
    16 <= n <= 32 && n % 4 == 0
}

/// The classes of phrase length.
#[derive(Debug, Clone, Copy, PartialEq, Eq, Structural)]
pub enum MnemonicType {
    Words12,
    Words15,
    Words18,
    Words21,
    Words24,
}

impl MnemonicType {
    /// The number of words of a phrase of this class.
    pub open spec fn word_count(self) -> nat {
        match self {
            MnemonicType::Words12 => 12,
            MnemonicType::Words15 => 15,
            MnemonicType::Words18 => 18,
            MnemonicType::Words21 => 21,
            MnemonicType::Words24 => 24,
        }
    }

    /// Classifies a word count; fails with `WordsNumber` on every other count.
    pub fn from(len: usize) -> (r: Result<Self, ErrorMnemonic>)
        ensures
            r.is_ok() == is_word_count(len as nat),
            r matches Ok(t) ==> t.word_count() == len,
            r matches Err(e) ==> e == ErrorMnemonic::WordsNumber,
    {
        match len {
            12 => Ok(MnemonicType::Words12),
            15 => Ok(MnemonicType::Words15),
            18 => Ok(MnemonicType::Words18),
            21 => Ok(MnemonicType::Words21),
            24 => Ok(MnemonicType::Words24),
            _ => Err(ErrorMnemonic::WordsNumber),
        }
    }

    /// Checksum width in bits: a third of the word count.
    pub fn checksum_bits(&self) -> (r: u8)
        ensures
            r == self.word_count() / 3,
            4 <= r <= 8,
    {
        match self {
            MnemonicType::Words12 => 4,
            MnemonicType::Words15 => 5,
            MnemonicType::Words18 => 6,
            MnemonicType::Words21 => 7,
            MnemonicType::Words24 => 8,
        }
    }

    /// Entropy width in bits: 32 bits for every three words.
    pub fn entropy_bits(&self) -> (r: usize)
        ensures
            r == 32 * self.word_count() / 3,
            r % 8 == 0,
    {
        match self {
            MnemonicType::Words12 => 128,
            MnemonicType::Words15 => 160,
            MnemonicType::Words18 => 192,
            MnemonicType::Words21 => 224,
            MnemonicType::Words24 => 256,
        }
    }

    /// Entropy and checksum width together: eleven bits per word.
    pub fn total_bits(&self) -> (r: usize)
        ensures
            r == self.entropy_bits_spec() + self.checksum_bits_spec(),
            r == 11 * self.word_count(),
    {
        self.entropy_bits() + self.checksum_bits() as usize
    }

    pub open spec fn entropy_bits_spec(self) -> nat {
        32 * self.word_count() / 3
    }

    pub open spec fn checksum_bits_spec(self) -> nat {
        self.word_count() / 3
    }
}

/// The top `bits` bits of `source`, as a number.
pub open spec fn checksum_spec(source: u8, bits: nat) -> u8 {
    source >> ((8 - bits) as u8)
}

fn checksum(source: u8, bits: u8) -> (r: u8)
    requires
        0 < bits <= 8,
    ensures
        r == checksum_spec(source, bits as nat),
{
    source >> (8 - bits)
}

/// Accepts an entropy candidate when its embedded checksum `actual` equals
/// the top `checksum_bits` bits of `digest_first`, the first byte of the
/// candidate's digest; fails with `InvalidChecksum` otherwise.
pub fn verify_checksum(entropy: Vec<u8>, actual: u8, checksum_bits: u8, digest_first: u8) -> (r:
    Result<Vec<u8>, ErrorMnemonic>)
    requires
        0 < checksum_bits <= 8,
    ensures
        match r {
            Ok(v) => accept(entropy@, actual as nat, checksum_bits as nat, digest_first) == Ok::<
                Seq<u8>,
                ErrorMnemonic,
            >(v@),
            Err(e) => accept(entropy@, actual as nat, checksum_bits as nat, digest_first) == Err::<
                Seq<u8>,
                ErrorMnemonic,
            >(e),
        },
{
    let expected = checksum(digest_first, checksum_bits);
    if actual != expected {
        let mut rejected = entropy;
        wipe_bytes(&mut rejected);
        Err(ErrorMnemonic::InvalidChecksum)
    } else {
        Ok(entropy)
    }
}

/// The indices that pack `entropy` with a checksum byte: the bits of the
/// entropy followed by the 8 bits of the checksum byte, cut into runs of
/// eleven bits.
pub open spec fn pack(entropy: Seq<u8>, checksum_byte: u8) -> Seq<u16> {
    bits_to_indices(bytes_bits(entropy.push(checksum_byte)))
}

/// The indices that encode `entropy`: packed with the first byte of its
/// SHA-256 digest.
pub open spec fn encode(entropy: Seq<u8>) -> Seq<u16> {
    pack(entropy, sha256_digest(entropy)[0])
}

/// What a sequence of indices unpacks to: the entropy candidate (the leading
/// `32 * n / 3` bits, as bytes) and the embedded checksum (the `n / 3` bits
/// after them, as a number); or `WordsNumber` for an unsupported count `n`.
pub open spec fn unpack(indices: Seq<u16>) -> Result<(Seq<u8>, nat), ErrorMnemonic> {
    let n = indices.len();
    if !is_word_count(n) {
        Err(ErrorMnemonic::WordsNumber)
    } else {
        let bits = indices_bits(indices);
        let e = 32 * n / 3;
        let c = n / 3;
        Ok((bits_to_bytes(bits.take(e as int)), bits_value(bits.subrange(e as int, (e + c) as int))))
    }
}

/// Accepting an entropy candidate: it stands when the embedded checksum
/// equals the top `bits` bits of the first digest byte.
pub open spec fn accept(entropy: Seq<u8>, actual: nat, bits: nat, digest_first: u8) -> Result<
    Seq<u8>,
    ErrorMnemonic,
> {
    if actual == checksum_spec(digest_first, bits) as nat {
        Ok(entropy)
    } else {
        Err(ErrorMnemonic::InvalidChecksum)
    }
}

/// What a sequence of indices decodes to: the entropy, or the error that
/// decoding gives.
pub open spec fn decode(indices: Seq<u16>) -> Result<Seq<u8>, ErrorMnemonic> {
    match unpack(indices) {
        Err(e) => Err(e),
        Ok((entropy, actual)) => accept(
            entropy,
            actual,
            indices.len() / 3,
            sha256_digest(entropy)[0],
        ),
    }
}

/// A word of a word list together with its index.
#[derive(Clone, Debug)]
pub struct WordListElement {
    pub word: String,
    pub bits11: Bits11,
}

/// The pairs (word, index) that a list of elements holds, in order.
pub open spec fn elements_view(s: Seq<WordListElement>) -> Seq<(Seq<char>, u16)> {
    s.map_values(|e: WordListElement| (e.word@, e.bits11@))
}

/// A word list of 2048 words: index to word, word to index, and prefix search.
pub trait AsWordList {
    /// What `get_word` gives for an index.
    spec fn word_spec(&self, index: u16) -> Result<Seq<char>, ErrorMnemonic>;

    /// What `bits11_for_word` gives for a word.
    spec fn index_spec(&self, word: Seq<char>) -> Result<u16, ErrorMnemonic>;

    /// What `get_words_by_prefix` gives for a prefix.
    spec fn prefix_spec(&self, prefix: Seq<char>) -> Result<
        Seq<(Seq<char>, u16)>,
        ErrorMnemonic,
    >;

    /// The word at an index.
    fn get_word(&self, bits: Bits11) -> (r: Result<String, ErrorMnemonic>)
        ensures
            match r {
                Ok(w) => self.word_spec(bits@) == Ok::<Seq<char>, ErrorMnemonic>(w@),
                Err(e) => self.word_spec(bits@) == Err::<Seq<char>, ErrorMnemonic>(e),
            },
    ;

    /// The words that start with `prefix`, with their indices, in ascending index order.
    fn get_words_by_prefix(&self, prefix: &str) -> (r: Result<Vec<WordListElement>, ErrorMnemonic>)
        ensures
            match r {
                Ok(v) => self.prefix_spec(prefix@) == Ok::<Seq<(Seq<char>, u16)>, ErrorMnemonic>(
                    elements_view(v@),
                ),
                Err(e) => self.prefix_spec(prefix@) == Err::<Seq<(Seq<char>, u16)>, ErrorMnemonic>(e),
            },
    ;

    /// The index of a word: an exact, case-sensitive, whole-word match.
    fn bits11_for_word(&self, word: &str) -> (r: Result<Bits11, ErrorMnemonic>)
        ensures
            match r {
                Ok(b) => self.index_spec(word@) == Ok::<u16, ErrorMnemonic>(b@),
                Err(e) => self.index_spec(word@) == Err::<u16, ErrorMnemonic>(e),
            },
    ;
}

/// The phrase that a word list spells for a sequence of indices: the words
/// in order, a single space between two of them, or the first failure of a
/// lookup.
pub open spec fn phrase_of<L: AsWordList>(wordlist: &L, indices: Seq<u16>) -> Result<
    Seq<char>,
    ErrorMnemonic,
>
    decreases indices.len(),
{
    if indices.len() == 0 {
        Ok(Seq::empty())
    } else {
        match phrase_of(wordlist, indices.drop_last()) {
            Err(e) => Err(e),
            Ok(p) => match wordlist.word_spec(indices.last()) {
                Err(e) => Err(e),
                Ok(w) => Ok(
                    if indices.len() == 1 {
                        w
                    } else {
                        p.push(' ') + w
                    },
                ),
            },
        }
    }
}

/// Once the phrase of a prefix fails, the phrase of every longer prefix
/// fails the same way.
pub proof fn lemma_phrase_error_persists<L: AsWordList>(
    wordlist: &L,
    indices: Seq<u16>,
    k: nat,
    e: ErrorMnemonic,
)
    requires
        k <= indices.len(),
        phrase_of(wordlist, indices.take(k as int)) == Err::<Seq<char>, ErrorMnemonic>(e),
    ensures
        phrase_of(wordlist, indices) == Err::<Seq<char>, ErrorMnemonic>(e),
    decreases indices.len() - k,
{
    if k < indices.len() {
        assert(indices.take(k + 1 as int).drop_last() =~= indices.take(k as int));
        lemma_phrase_error_persists(wordlist, indices, k + 1, e);
    } else {
        assert(indices.take(k as int) =~= indices);
    }
}

/// The values of a sequence of indices.
pub open spec fn values_of(s: Seq<Bits11>) -> Seq<u16> {
    s.map_values(|b: Bits11| b@)
}

/// An ordered sequence of word indices: a phrase under entry, or one made from entropy.
#[derive(Clone, Debug)]
pub struct WordSet {
    pub bits11_set: Vec<Bits11>,
}

/// Relies on `zeroize::Zeroize` for `Vec<Bits11>` (through `DefaultIsZeroes`):
/// the elements and the spare capacity are overwritten with zeroes by
/// volatile writes, then the vector is cleared.
#[verifier::external_body]
fn wipe_indices(v: &mut Vec<Bits11>)
    ensures
        final(v)@.len() == 0,
    opens_invariants none
    no_unwind
{
    zeroize::Zeroize::zeroize(v)
}

/// Relies on `zeroize::Zeroize` for `Vec<u8>`: the elements and the spare
/// capacity are overwritten with zeroes by volatile writes, then the vector
/// is cleared.
#[verifier::external_body]
fn wipe_bytes(v: &mut Vec<u8>)
    ensures
        final(v)@.len() == 0,
{
    zeroize::Zeroize::zeroize(v)
}

impl Drop for WordSet {
    /// Wipes the indices, which carry the entropy, when the set goes away.
    fn drop(&mut self)
        opens_invariants none
        no_unwind
    {
        wipe_indices(&mut self.bits11_set);
    }
}

impl WordSet {
    /// The index values, in order.
    pub open spec fn indices(&self) -> Seq<u16> {
        values_of(self.bits11_set@)
    }

    /// Encodes entropy of 16, 20, 24, 28 or 32 bytes into 12, 15, 18, 21 or
    /// 24 indices, with the first byte of its SHA-256 digest as checksum.
    pub fn from_entropy(entropy: &[u8]) -> (r: Result<Self, ErrorMnemonic>)
        ensures
            r.is_ok() == is_entropy_len(entropy@.len()),
            r matches Ok(ws) ==> ws.indices() == encode(entropy@) && ws.bits11_set@.len()
                == entropy@.len() * 3 / 4,
            r matches Err(e) ==> e == ErrorMnemonic::InvalidEntropy,
    {
        let len = entropy.len();
        if len < 16 || len > 32 || len % 4 != 0 {
            return Err(ErrorMnemonic::InvalidEntropy);
        }
        let digest = sha256(entropy);
        Self::from_entropy_with_checksum(entropy, digest[0])
    }

    /// Packs entropy of 16, 20, 24, 28 or 32 bytes followed by `checksum_byte`
    /// into 12, 15, 18, 21 or 24 indices.
    pub fn from_entropy_with_checksum(entropy: &[u8], checksum_byte: u8) -> (r: Result<
        Self,
        ErrorMnemonic,
    >)
        ensures
            r.is_ok() == is_entropy_len(entropy@.len()),
            r matches Ok(ws) ==> ws.indices() == pack(entropy@, checksum_byte) && ws.bits11_set@.len()
                == entropy@.len() * 3 / 4,
            r matches Err(e) ==> e == ErrorMnemonic::InvalidEntropy,
    {
        let len = entropy.len();
        if len < 16 || len > 32 || len % 4 != 0 {
            return Err(ErrorMnemonic::InvalidEntropy);
        }

        let mut entropy_bits = BitsHelper::with_capacity((len + 1) * BITS_IN_BYTE);
        let mut i: usize = 0;
        while i < len
            invariant
                i <= len == entropy@.len(),
                entropy_bits@ == bytes_bits(entropy@.take(i as int)),
            decreases len - i,
        {
            entropy_bits.extend_from_byte(entropy[i]);
            i = i + 1;
            assert(entropy@.take(i as int).drop_last() =~= entropy@.take(i - 1));
        }
        entropy_bits.extend_from_byte(checksum_byte);
        let ghost full = entropy@.push(checksum_byte);
        proof {
            assert(full.drop_last() =~= entropy@.take(len as int));
            lemma_bytes_bits_len(full);
        }
        assert(entropy_bits@ == bytes_bits(full));

        let n = entropy_bits.len() / BITS_IN_U11;
        let mut bits11_set: Vec<Bits11> = Vec::with_capacity(MAX_SEED_LEN);
        let mut j: usize = 0;
        while j < n
            invariant
                j <= n == entropy_bits@.len() / 11,
                entropy_bits@ == bytes_bits(full),
                entropy_bits@.len() == 8 * (len + 1),
                len <= 32,
                values_of(bits11_set@) == bits_to_indices(entropy_bits@).take(j as int),
            decreases n - j,
        {
            let v = entropy_bits.read_group(j * BITS_IN_U11, BITS_IN_U11);
            proof {
                lemma2_to64();
                lemma_bits_value_bound(entropy_bits@.subrange(11 * j, 11 * j + 11));
                assert(v == bits_to_indices(entropy_bits@)[j as int]);
            }
            let ghost before = bits11_set@;
            let b = Bits11(v);
            bits11_set.push(b);
            assert(values_of(bits11_set@) =~= values_of(before).push(v));
            j = j + 1;
            assert(values_of(bits11_set@) =~= bits_to_indices(entropy_bits@).take(j as int));
        }
        let ws = WordSet { bits11_set };
        assert(ws.indices() =~= pack(entropy@, checksum_byte));
        Ok(ws)
    }

    /// An empty set, for entering a phrase word by word.
    pub fn new() -> (r: Self)
        ensures
            r.indices() == Seq::<u16>::empty(),
    {
        let ws = WordSet { bits11_set: Vec::with_capacity(MAX_SEED_LEN) };
        assert(ws.indices() =~= Seq::<u16>::empty());
        ws
    }

    /// Looks `word` up in the word list and appends its index; a lookup
    /// failure is passed on unchanged. Once 24 indices are held, further
    /// words are ignored.
    pub fn add_word<L: AsWordList>(&mut self, word: &str, wordlist: &L) -> (r: Result<
        (),
        ErrorMnemonic,
    >)
        ensures
            old(self).indices().len() >= MAX_SEED_LEN ==> r is Ok && final(self).indices() == old(
                self,
            ).indices(),
            old(self).indices().len() < MAX_SEED_LEN ==> match wordlist.index_spec(word@) {
                Ok(i) => r is Ok && final(self).indices() == old(self).indices().push(i),
                Err(e) => r == Err::<(), ErrorMnemonic>(e) && final(self).indices() == old(
                    self,
                ).indices(),
            },
    {
        if self.bits11_set.len() < MAX_SEED_LEN {
            let bits11 = match wordlist.bits11_for_word(word) {
                Ok(b) => b,
                Err(e) => return Err(e),
            };
            let ghost before = self.bits11_set@;
            self.bits11_set.push(bits11);
            assert(values_of(self.bits11_set@) =~= values_of(before).push(bits11@));
        }
        Ok(())
    }

    /// Whether the number of indices is one that decodes: 12, 15, 18, 21 or 24.
    pub fn is_finalizable(&self) -> (r: bool)
        ensures
            r == is_word_count(self.indices().len()),
    {
        MnemonicType::from(self.bits11_set.len()).is_ok()
    }

    /// The phrase: the word of each index in order, separated by single spaces.
    pub fn to_phrase<L: AsWordList>(&self, wordlist: &L) -> (r: Result<String, ErrorMnemonic>)
        ensures
            match r {
                Ok(p) => phrase_of(wordlist, self.indices()) == Ok::<Seq<char>, ErrorMnemonic>(p@),
                Err(e) => phrase_of(wordlist, self.indices()) == Err::<Seq<char>, ErrorMnemonic>(e),
            },
    {
        let ghost indices = self.indices();
        let count = self.bits11_set.len();
        let mut phrase = String::new();
        let mut i: usize = 0;
        while i < count
            invariant
                i <= count == self.bits11_set@.len(),
                indices == self.indices(),
                phrase_of(wordlist, indices.take(i as int)) == Ok::<Seq<char>, ErrorMnemonic>(phrase@),
            decreases count - i,
        {
            let bits11 = self.bits11_set[i];
            proof {
                assert(indices.take(i + 1).drop_last() =~= indices.take(i as int));
            }
            let word = match wordlist.get_word(bits11) {
                Ok(w) => w,
                Err(e) => {
                    proof {
                        lemma_phrase_error_persists(wordlist, indices, (i + 1) as nat, e);
                        assert(indices.take(count as int) =~= indices);
                    }
                    return Err(e);
                },
            };
            let ghost before = phrase@;
            assert(bits11@ == indices[i as int]);
            if i > 0 {
                proof {
                    reveal_strlit(" ");
                }
                phrase.append(" ");
                assert(phrase@ =~= before.push(' '));
            }
            phrase.append(word.as_str());
            i = i + 1;
        }
        assert(indices.take(count as int) =~= indices);
        Ok(phrase)
    }

    /// Decodes the indices back to entropy: fails with `WordsNumber` unless
    /// there are 12, 15, 18, 21 or 24 of them, and with `InvalidChecksum`
    /// when the embedded checksum disagrees with the one recomputed from the
    /// decoded entropy.
    pub fn to_entropy(&self) -> (r: Result<Vec<u8>, ErrorMnemonic>)
        ensures
            match r {
                Ok(v) => decode(self.indices()) == Ok::<Seq<u8>, ErrorMnemonic>(v@),
                Err(e) => decode(self.indices()) == Err::<Seq<u8>, ErrorMnemonic>(e),
            },
    {
        let (entropy, actual) = match self.entropy_and_checksum() {
            Ok(pair) => pair,
            Err(e) => return Err(e),
        };
        let checksum_len = (self.bits11_set.len() / 3) as u8;
        let digest = sha256(entropy.as_slice());
        verify_checksum(entropy, actual, checksum_len, digest[0])
    }

    /// Splits the indices into the entropy candidate and the embedded
    /// checksum; fails with `WordsNumber` unless there are 12, 15, 18, 21 or
    /// 24 of them.
    pub fn entropy_and_checksum(&self) -> (r: Result<(Vec<u8>, u8), ErrorMnemonic>)
        ensures
            match r {
                Ok((v, c)) => unpack(self.indices()) == Ok::<(Seq<u8>, nat), ErrorMnemonic>(
                    (v@, c as nat),
                ),
                Err(e) => unpack(self.indices()) == Err::<(Seq<u8>, nat), ErrorMnemonic>(e),
            },
    {
        let mnemonic_type = match MnemonicType::from(self.bits11_set.len()) {
            Ok(t) => t,
            Err(e) => return Err(e),
        };
        let ghost indices = self.indices();
        let count = self.bits11_set.len();

        let mut entropy_bits = BitsHelper::with_capacity(mnemonic_type.total_bits());
        let mut i: usize = 0;
        while i < count
            invariant
                i <= count == self.bits11_set@.len(),
                indices == self.indices(),
                entropy_bits@ == indices_bits(indices.take(i as int)),
            decreases count - i,
        {
            entropy_bits.extend_from_bits11(&self.bits11_set[i]);
            i = i + 1;
            assert(indices.take(i as int).drop_last() =~= indices.take(i - 1));
        }
        proof {
            assert(indices.take(count as int) =~= indices);
            lemma_indices_bits_index(indices);
        }
        let ghost bits = entropy_bits@;

        let entropy_len = mnemonic_type.entropy_bits() / BITS_IN_BYTE;
        let checksum_len = mnemonic_type.checksum_bits();
        let ghost e = 32 * count / 3;
        let mut entropy: Vec<u8> = Vec::with_capacity(mnemonic_type.total_bits() / BITS_IN_BYTE);
        let mut j: usize = 0;
        while j < entropy_len
            invariant
                j <= entropy_len,
                entropy_len * 8 == e,
                e <= bits.len() == entropy_bits@.len(),
                bits == entropy_bits@,
                e <= 256,
                entropy@ == bits_to_bytes(bits.take(e as int)).take(j as int),
            decreases entropy_len - j,
        {
            let v = entropy_bits.read_group(j * BITS_IN_BYTE, BITS_IN_BYTE);
            proof {
                lemma2_to64();
                lemma_bits_value_bound(bits.subrange(8 * j, 8 * j + 8));
                assert(bits.take(e as int).subrange(8 * j, 8 * j + 8) =~= bits.subrange(8 * j, 8 * j + 8));
            }
            entropy.push(v as u8);
            j = j + 1;
            assert(entropy@ =~= bits_to_bytes(bits.take(e as int)).take(j as int));
        }
        assert(entropy@ =~= bits_to_bytes(bits.take(e as int)));

        let actual_checksum = entropy_bits.read_group(entropy_len * BITS_IN_BYTE, checksum_len as usize);
        proof {
            lemma2_to64();
            lemma_bits_value_bound(bits.subrange(e as int, e + checksum_len));
            assert(pow2(checksum_len as nat) <= 256) by {
                assert(checksum_len == 4 || checksum_len == 5 || checksum_len == 6 || checksum_len == 7
                    || checksum_len == 8);
            }
        }
        Ok((entropy, actual_checksum as u8))
    }

}

} // verus!
