//! A reference word list: a table of 2048 words searched linearly.
use vstd::prelude::*;
use vstd::string::{StrSliceExecFns, StringExecFns};

use crate::error::ErrorMnemonic;
use crate::{elements_view, AsWordList, Bits11, WordListElement, TOTAL_WORDS};

verus! {

/// The first position at which `word` stands in `table`, if any.
pub open spec fn find_word(table: Seq<Seq<char>>, word: Seq<char>) -> Option<nat>
    decreases table.len(),
{
    if table.len() == 0 {
        None
    } else {
        match find_word(table.drop_last(), word) {
            Some(i) => Some(i),
            None => if table.last() == word {
                Some((table.len() - 1) as nat)
            } else {
                None
            },
        }
    }
}

/// The words of `table` that start with `prefix`, each with its position, in
/// ascending order of position.
pub open spec fn prefix_matches(table: Seq<Seq<char>>, prefix: Seq<char>) -> Seq<(Seq<char>, u16)>
    decreases table.len(),
{
    if table.len() == 0 {
        Seq::empty()
    } else {
        prefix_matches(table.drop_last(), prefix) + if prefix.is_prefix_of(table.last()) {
            seq![(table.last(), (table.len() - 1) as u16)]
        } else {
            Seq::empty()
        }
    }
}

/// A word found in a prefix of the table is found at the same place in the
/// whole table.
pub proof fn lemma_find_word_extends(table: Seq<Seq<char>>, word: Seq<char>, k: nat)
    requires
        k <= table.len(),
        find_word(table.take(k as int), word) is Some,
    ensures
        find_word(table, word) == find_word(table.take(k as int), word),
    decreases table.len() - k,
{
    if k < table.len() {
        assert(table.take(k + 1 as int).drop_last() =~= table.take(k as int));
        lemma_find_word_extends(table, word, k + 1);
    } else {
        assert(table.take(k as int) =~= table);
    }
}

/// Whether `word` starts with `prefix`.
pub fn starts_with(word: &str, prefix: &str) -> (r: bool)
    ensures
        r == prefix@.is_prefix_of(word@),
{
    let n = prefix.unicode_len();
    let m = word.unicode_len();
    if n > m {
        return false;
    }
    let mut i: usize = 0;
    while i < n
        invariant
            i <= n <= m,
            n == prefix@.len(),
            m == word@.len(),
            prefix@.take(i as int) =~= word@.take(i as int),
        decreases n - i,
    {
        if prefix.get_char(i) != word.get_char(i) {
            assert(prefix@[i as int] != word@.subrange(0, n as int)[i as int]);
            return false;
        }
        i = i + 1;
        assert(prefix@.take(i as int) =~= word@.take(i as int));
    }
    assert(prefix@ =~= word@.subrange(0, n as int));
    true
}

/// A position that `find_word` gives holds the word.
pub proof fn lemma_find_word_found(table: Seq<Seq<char>>, word: Seq<char>)
    ensures
        find_word(table, word) matches Some(j) ==> j < table.len() && table[j as int] == word,
        find_word(table, word) is None ==> forall|j: int| 0 <= j < table.len() ==> table[j] != word,
    decreases table.len(),
{
    if table.len() > 0 {
        lemma_find_word_found(table.drop_last(), word);
        assert forall|j: int| 0 <= j < table.len() - 1 implies table.drop_last()[j] == table[j] by {}
    }
}

/// Whether no word stands twice in a table.
pub open spec fn distinct_words(table: Seq<Seq<char>>) -> bool {
    forall|a: int, b: int| 0 <= a < b < table.len() ==> table[a] != table[b]
}

/// In a table of distinct words, the word at position `i` is found at `i`.
pub proof fn lemma_find_distinct(table: Seq<Seq<char>>, i: int)
    requires
        distinct_words(table),
        0 <= i < table.len(),
    ensures
        find_word(table, table[i]) == Some(i as nat),
    decreases table.len(),
{
    let rest = table.drop_last();
    if i < table.len() - 1 {
        assert(distinct_words(rest));
        lemma_find_distinct(rest, i);
    } else {
        lemma_find_word_found(rest, table[i]);
        if find_word(rest, table[i]) is Some {
            let j = find_word(rest, table[i])->Some_0;
            assert(table[j as int] == table[i]);
        }
    }
}

/// In a word list whose words are distinct, the word of every index is
/// found, and looking it up gives the index back.
pub proof fn lemma_word_index_inverse(list: &InternalWordList, i: u16)
    requires
        list.table().len() == 2048,
        distinct_words(list.table()),
        i < 2048,
    ensures
        list.word_spec(i) == Ok::<Seq<char>, ErrorMnemonic>(list.table()[i as int]),
        list.index_spec(list.table()[i as int]) == Ok::<u16, ErrorMnemonic>(i),
{
    lemma_find_distinct(list.table(), i as int);
}

/// A word list over a table of exactly 2048 words.
pub struct InternalWordList {
    words: Vec<String>,
}

impl InternalWordList {
    #[verifier::type_invariant]
    spec fn full(self) -> bool {
        self.words@.len() == 2048
    }

    /// The words of the table, in index order.
    pub closed spec fn table(&self) -> Seq<Seq<char>> {
        self.words@.map_values(|w: String| w@)
    }

    /// Takes a table of words; it must hold exactly 2048 of them.
    pub fn new(words: Vec<String>) -> (r: Option<Self>)
        ensures
            r is Some == (words@.len() == TOTAL_WORDS),
            r matches Some(l) ==> l.table() == words@.map_values(|w: String| w@),
    {
        if words.len() == TOTAL_WORDS {
            Some(InternalWordList { words })
        } else {
            None
        }
    }
}

impl AsWordList for InternalWordList {
    open spec fn word_spec(&self, index: u16) -> Result<Seq<char>, ErrorMnemonic> {
        if index < self.table().len() {
            Ok(self.table()[index as int])
        } else {
            Err(ErrorMnemonic::DamagedWord)
        }
    }

    open spec fn index_spec(&self, word: Seq<char>) -> Result<u16, ErrorMnemonic> {
        match find_word(self.table(), word) {
            Some(i) => Ok(i as u16),
            None => Err(ErrorMnemonic::NoWord),
        }
    }

    open spec fn prefix_spec(&self, prefix: Seq<char>) -> Result<
        Seq<(Seq<char>, u16)>,
        ErrorMnemonic,
    > {
        Ok(prefix_matches(self.table(), prefix))
    }

    fn get_word(&self, bits: Bits11) -> (r: Result<String, ErrorMnemonic>) {
        proof {
            use_type_invariant(self);
        }
        let word_order = bits.bits() as usize;
        Ok(self.words[word_order].clone())
    }

    fn get_words_by_prefix(&self, prefix: &str) -> (r: Result<Vec<WordListElement>, ErrorMnemonic>) {
        proof {
            use_type_invariant(self);
        }
        let ghost table = self.table();
        let mut out: Vec<WordListElement> = Vec::new();
        let mut i: usize = 0;
        while i < self.words.len()
            invariant
                i <= self.words@.len() == 2048,
                table == self.table(),
                elements_view(out@) == prefix_matches(table.take(i as int), prefix@),
            decreases self.words@.len() - i,
        {
            let ghost before = out@;
            assert(table.take(i + 1 as int).drop_last() =~= table.take(i as int));
            if starts_with(self.words[i].as_str(), prefix) {
                let bits11 = match Bits11::from(i as u16) {
                    Ok(b) => b,
                    Err(e) => return Err(e),
                };
                out.push(WordListElement { word: self.words[i].clone(), bits11 });
                assert(elements_view(out@) =~= elements_view(before).push(
                    (table[i as int], i as u16),
                ));
            }
            i = i + 1;
            assert(elements_view(out@) =~= prefix_matches(table.take(i as int), prefix@));
        }
        assert(table.take(i as int) =~= table);
        Ok(out)
    }

    fn bits11_for_word(&self, word: &str) -> (r: Result<Bits11, ErrorMnemonic>) {
        proof {
            use_type_invariant(self);
        }
        let ghost table = self.table();
        let target = String::from_str(word);
        let mut i: usize = 0;
        while i < self.words.len()
            invariant
                i <= self.words@.len() == 2048,
                table == self.table(),
                target@ == word@,
                find_word(table.take(i as int), word@) is None,
            decreases self.words@.len() - i,
        {
            assert(table.take(i + 1 as int).drop_last() =~= table.take(i as int));
            if self.words[i] == target {
                proof {
                    lemma_find_word_extends(table, word@, (i + 1) as nat);
                }
                return Bits11::from(i as u16);
            }
            i = i + 1;
        }
        assert(table.take(i as int) =~= table);
        Err(ErrorMnemonic::NoWord)
    }
}

} // verus!
