use vstd::prelude::*;
use vstd::string::StringExecFns;

verus! {

/// The flat error taxonomy of the mnemonic codec.
#[derive(Debug, Clone, Copy, PartialEq, Eq, Structural)]
pub enum ErrorMnemonic {
    /// An index could not be turned into a word (an inconsistent word list).
    DamagedWord,
    /// The checksum embedded in a phrase disagrees with the recomputed one.
    InvalidChecksum,
    /// Entropy length outside 16..=32 bytes or not a multiple of 4.
    InvalidEntropy,
    /// An index value of 2048 or more.
    InvalidWordNumber,
    /// A word that the word list does not hold.
    NoWord,
    /// A word count other than 12, 15, 18, 21 or 24 at finalization.
    WordsNumber,
}

impl ErrorMnemonic {
    /// The description of each error.
    pub open spec fn text_spec(self) -> Seq<char> {
        match self {
            ErrorMnemonic::DamagedWord => "Unable to extract a word from the word list."@,
            ErrorMnemonic::InvalidChecksum => "Invalid text mnemonic: the checksum does not match."@,
            ErrorMnemonic::InvalidEntropy => "Unable to calculate the mnemonic from entropy. Invalid entropy length."@,
            ErrorMnemonic::InvalidWordNumber => "Ordinal number for word requested is higher than total number of words in the word list."@,
            ErrorMnemonic::NoWord => "Requested word in not in the word list."@,
            ErrorMnemonic::WordsNumber => "Invalid text mnemonic: unexpected number of words."@,
        }
    }

    /// Human-readable description of the error.
    pub fn error_text(&self) -> (r: String)
        ensures
            r@ == self.text_spec(),
    {
        let s = match self {
            ErrorMnemonic::DamagedWord => "Unable to extract a word from the word list.",
            ErrorMnemonic::InvalidChecksum => "Invalid text mnemonic: the checksum does not match.",
            ErrorMnemonic::InvalidEntropy => "Unable to calculate the mnemonic from entropy. Invalid entropy length.",
            ErrorMnemonic::InvalidWordNumber => "Ordinal number for word requested is higher than total number of words in the word list.",
            ErrorMnemonic::NoWord => "Requested word in not in the word list.",
            ErrorMnemonic::WordsNumber => "Invalid text mnemonic: unexpected number of words.",
        };
        String::from_str(s)
    }
}

} // verus!
