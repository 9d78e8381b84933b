use mnemonic_core::error::ErrorMnemonic;
use mnemonic_core::regular::{starts_with, InternalWordList};
use mnemonic_core::{verify_checksum, AsWordList, Bits11, MnemonicType, WordSet};

const FIRST_WORDS: [&str; 12] = [
    "abandon", "ability", "able", "about", "above", "absent", "absorb", "abstract", "absurd",
    "abuse", "access", "accident",
];

fn table() -> Vec<String> {
    (0..2048)
        .map(|i| {
            if i < FIRST_WORDS.len() {
                FIRST_WORDS[i].to_string()
            } else {
                format!("word{}", i)
            }
        })
        .collect()
}

fn word_list() -> InternalWordList {
    InternalWordList::new(table()).unwrap()
}

fn indices(ws: &WordSet) -> Vec<u16> {
    ws.bits11_set.iter().map(|b| b.bits()).collect()
}

fn set_of(values: &[u16]) -> WordSet {
    let mut ws = WordSet::new();
    for v in values {
        ws.bits11_set.push(Bits11::from(*v).unwrap());
    }
    ws
}

fn sample_entropy(len: usize, seed: u8) -> Vec<u8> {
    (0..len).map(|i| (i as u8).wrapping_mul(37).wrapping_add(seed)).collect()
}

#[test]
fn index_2047_is_valid() {
    let b = Bits11::from(2047).unwrap();
    assert_eq!(b.bits(), 2047);
    assert_eq!(Bits11::from(0).unwrap().bits(), 0);
}

#[test]
fn index_2048_is_rejected() {
    assert!(matches!(Bits11::from(2048), Err(ErrorMnemonic::InvalidWordNumber)));
    assert!(matches!(Bits11::from(u16::MAX), Err(ErrorMnemonic::InvalidWordNumber)));
}

#[test]
fn entropy_lengths_rejected() {
    for len in [0usize, 12, 15, 17, 18, 31, 33, 36] {
        let e = vec![0u8; len];
        assert!(matches!(WordSet::from_entropy(&e), Err(ErrorMnemonic::InvalidEntropy)));
    }
}

#[test]
fn entropy_lengths_accepted_give_word_counts() {
    for (len, words) in [(16usize, 12usize), (20, 15), (24, 18), (28, 21), (32, 24)] {
        let ws = WordSet::from_entropy(&sample_entropy(len, 1)).unwrap();
        assert_eq!(ws.bits11_set.len(), words);
        assert!(ws.is_finalizable());
    }
}

#[test]
fn thirteen_words_fail_with_words_number() {
    let ws = set_of(&[0u16; 13]);
    assert!(!ws.is_finalizable());
    assert!(matches!(ws.to_entropy(), Err(ErrorMnemonic::WordsNumber)));
    let empty = WordSet::new();
    assert!(matches!(empty.to_entropy(), Err(ErrorMnemonic::WordsNumber)));
}

#[test]
fn supported_word_counts_do_not_fail_on_count() {
    for n in [12usize, 15, 18, 21, 24] {
        let ws = set_of(&vec![5u16; n]);
        assert!(ws.is_finalizable());
        match ws.to_entropy() {
            Err(ErrorMnemonic::WordsNumber) => panic!("word count {} refused", n),
            _ => {}
        }
    }
}

#[test]
fn zero_entropy_scenario() {
    let entropy = [0u8; 16];
    let ws = WordSet::from_entropy(&entropy).unwrap();
    assert_eq!(indices(&ws), vec![0, 0, 0, 0, 0, 0, 0, 0, 0, 0, 0, 3]);
    let list = word_list();
    let phrase = ws.to_phrase(&list).unwrap();
    assert_eq!(
        phrase,
        "abandon abandon abandon abandon abandon abandon abandon abandon abandon abandon abandon about"
    );
    let mut back = WordSet::new();
    for w in phrase.split(' ') {
        back.add_word(w, &list).unwrap();
    }
    assert_eq!(back.to_entropy().unwrap(), entropy.to_vec());
}

#[test]
fn round_trip_every_length_through_phrase() {
    let list = word_list();
    for len in [16usize, 20, 24, 28, 32] {
        for seed in [0u8, 7, 200] {
            let entropy = sample_entropy(len, seed);
            let ws = WordSet::from_entropy(&entropy).unwrap();
            let phrase = ws.to_phrase(&list).unwrap();
            let mut back = WordSet::new();
            for w in phrase.split(' ') {
                back.add_word(w, &list).unwrap();
            }
            assert_eq!(indices(&back), indices(&ws));
            assert_eq!(back.to_entropy().unwrap(), entropy);
        }
        let ones = vec![0xffu8; len];
        let ws = WordSet::from_entropy(&ones).unwrap();
        assert_eq!(ws.to_entropy().unwrap(), ones);
    }
}

#[test]
fn encoding_is_deterministic() {
    let e = sample_entropy(24, 99);
    let a = WordSet::from_entropy(&e).unwrap();
    let b = WordSet::from_entropy(&e).unwrap();
    assert_eq!(indices(&a), indices(&b));
}

#[test]
fn flipped_checksum_bit_fails() {
    for len in [16usize, 20, 24, 28, 32] {
        let entropy = sample_entropy(len, 3);
        let ws = WordSet::from_entropy(&entropy).unwrap();
        let values = indices(&ws);
        let checksum_bits = values.len() / 3;
        for bit in 0..checksum_bits {
            let mut corrupted = values.clone();
            let last = corrupted.len() - 1;
            corrupted[last] ^= 1 << bit;
            let bad = set_of(&corrupted);
            assert!(matches!(bad.to_entropy(), Err(ErrorMnemonic::InvalidChecksum)));
        }
    }
}

#[test]
fn prefix_search_aban() {
    let list = word_list();
    let found = list.get_words_by_prefix("aban").unwrap();
    assert_eq!(found.len(), 1);
    assert_eq!(found[0].word, "abandon");
    assert_eq!(found[0].bits11.bits(), 0);
}

#[test]
fn prefix_search_ascending_order() {
    let list = word_list();
    let found = list.get_words_by_prefix("ab").unwrap();
    let got: Vec<(String, u16)> = found.iter().map(|e| (e.word.clone(), e.bits11.bits())).collect();
    let expected: Vec<(String, u16)> = FIRST_WORDS[..10]
        .iter()
        .enumerate()
        .map(|(i, w)| (w.to_string(), i as u16))
        .collect();
    assert_eq!(got, expected);
    assert_eq!(list.get_words_by_prefix("").unwrap().len(), 2048);
    assert!(list.get_words_by_prefix("zzz").unwrap().is_empty());
}

#[test]
fn absent_word_fails_with_no_word() {
    let list = word_list();
    assert!(matches!(list.bits11_for_word("notaword"), Err(ErrorMnemonic::NoWord)));
    assert!(matches!(list.bits11_for_word("Abandon"), Err(ErrorMnemonic::NoWord)));
    assert!(matches!(list.bits11_for_word("aban"), Err(ErrorMnemonic::NoWord)));
    let mut ws = WordSet::new();
    assert!(matches!(ws.add_word("notaword", &list), Err(ErrorMnemonic::NoWord)));
    assert_eq!(ws.bits11_set.len(), 0);
}

#[test]
fn word_lookups() {
    let list = word_list();
    assert_eq!(list.bits11_for_word("about").unwrap().bits(), 3);
    assert_eq!(list.bits11_for_word("word2047").unwrap().bits(), 2047);
    assert_eq!(list.get_word(Bits11::from(1).unwrap()).unwrap(), "ability");
}

#[test]
fn add_word_past_24_is_ignored() {
    let list = word_list();
    let mut ws = WordSet::new();
    for _ in 0..24 {
        ws.add_word("able", &list).unwrap();
    }
    assert!(ws.add_word("about", &list).is_ok());
    assert!(ws.add_word("notaword", &list).is_ok());
    assert_eq!(ws.bits11_set.len(), 24);
    assert!(indices(&ws).iter().all(|v| *v == 2));
}

#[test]
fn word_list_needs_2048_words() {
    assert!(InternalWordList::new(vec!["a".to_string(); 2047]).is_none());
    assert!(InternalWordList::new(table()).is_some());
}

#[test]
fn phrase_of_empty_set_is_empty() {
    let list = word_list();
    assert_eq!(WordSet::new().to_phrase(&list).unwrap(), "");
    assert_eq!(set_of(&[2, 3]).to_phrase(&list).unwrap(), "able about");
}

#[test]
fn mnemonic_type_widths() {
    for (n, e, c) in [(12usize, 128usize, 4u8), (15, 160, 5), (18, 192, 6), (21, 224, 7), (24, 256, 8)] {
        let t = MnemonicType::from(n).unwrap();
        assert_eq!(t.entropy_bits(), e);
        assert_eq!(t.checksum_bits(), c);
        assert_eq!(t.total_bits(), 11 * n);
    }
    assert!(matches!(MnemonicType::from(13), Err(ErrorMnemonic::WordsNumber)));
}

#[test]
fn starts_with_cases() {
    assert!(starts_with("abandon", "aban"));
    assert!(starts_with("abandon", ""));
    assert!(!starts_with("aban", "abandon"));
    assert!(!starts_with("abandon", "abx"));
}

#[test]
fn error_texts_are_present() {
    for e in [
        ErrorMnemonic::DamagedWord,
        ErrorMnemonic::InvalidChecksum,
        ErrorMnemonic::InvalidEntropy,
        ErrorMnemonic::InvalidWordNumber,
        ErrorMnemonic::NoWord,
        ErrorMnemonic::WordsNumber,
    ] {
        assert!(!e.error_text().is_empty());
    }
    assert_eq!(
        ErrorMnemonic::NoWord.error_text(),
        "Requested word in not in the word list."
    );
}

#[test]
fn pack_with_given_checksum_byte() {
    let zeros = [0u8; 16];
    let ws = WordSet::from_entropy_with_checksum(&zeros, 0x37).unwrap();
    assert_eq!(indices(&ws), vec![0, 0, 0, 0, 0, 0, 0, 0, 0, 0, 0, 3]);
    let ws = WordSet::from_entropy_with_checksum(&zeros, 0xff).unwrap();
    assert_eq!(indices(&ws)[11], 15);
    let ones = [0xffu8; 32];
    let ws = WordSet::from_entropy_with_checksum(&ones, 0x00).unwrap();
    assert_eq!(indices(&ws)[..23].to_vec(), vec![2047u16; 23]);
    assert_eq!(indices(&ws)[23], 0b111_0000_0000);
    assert!(matches!(
        WordSet::from_entropy_with_checksum(&[0u8; 17], 0),
        Err(ErrorMnemonic::InvalidEntropy)
    ));
}

#[test]
fn zero_entropy_of_32_bytes() {
    let ws = WordSet::from_entropy(&[0u8; 32]).unwrap();
    let mut expected = vec![0u16; 23];
    expected.push(102);
    assert_eq!(indices(&ws), expected);
    assert_eq!(ws.to_entropy().unwrap(), vec![0u8; 32]);
}

#[test]
fn split_entropy_and_checksum() {
    let mut values = vec![0u16; 11];
    values.push(3);
    let (e, c) = set_of(&values).entropy_and_checksum().unwrap();
    assert_eq!(e, vec![0u8; 16]);
    assert_eq!(c, 3);
    let (e, c) = set_of(&[2047u16; 12]).entropy_and_checksum().unwrap();
    assert_eq!(e, vec![0xffu8; 16]);
    assert_eq!(c, 15);
    let (e, c) = set_of(&[2047u16; 24]).entropy_and_checksum().unwrap();
    assert_eq!(e, vec![0xffu8; 32]);
    assert_eq!(c, 255);
    assert!(matches!(set_of(&[1u16; 14]).entropy_and_checksum(), Err(ErrorMnemonic::WordsNumber)));
}

#[test]
fn checksum_comparison() {
    assert_eq!(verify_checksum(vec![1, 2], 3, 4, 0x37).unwrap(), vec![1, 2]);
    assert!(matches!(verify_checksum(vec![1, 2], 2, 4, 0x37), Err(ErrorMnemonic::InvalidChecksum)));
    assert!(verify_checksum(vec![], 0x37, 8, 0x37).is_ok());
    assert!(matches!(verify_checksum(vec![], 0x36, 8, 0x37), Err(ErrorMnemonic::InvalidChecksum)));
}

fn table_with_empty_first_word() -> Vec<String> {
    let mut words = table();
    words[0] = String::new();
    words
}

#[test]
fn phrase_keeps_separator_after_empty_word() {
    let list = InternalWordList::new(table_with_empty_first_word()).unwrap();
    assert_eq!(set_of(&[0, 2]).to_phrase(&list).unwrap(), " able");
    assert_eq!(set_of(&[2, 0, 3]).to_phrase(&list).unwrap(), "able  about");
    assert_eq!(set_of(&[0, 0]).to_phrase(&list).unwrap(), " ");
}

#[test]
fn round_trip_through_phrase_with_empty_word() {
    let list = InternalWordList::new(table_with_empty_first_word()).unwrap();
    let entropy = [0u8; 16];
    let ws = WordSet::from_entropy(&entropy).unwrap();
    let phrase = ws.to_phrase(&list).unwrap();
    assert_eq!(phrase, "           about");
    let mut back = WordSet::new();
    for w in phrase.split(' ') {
        back.add_word(w, &list).unwrap();
    }
    assert_eq!(indices(&back), indices(&ws));
    assert_eq!(back.to_entropy().unwrap(), entropy.to_vec());
}
