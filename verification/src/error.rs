//! The ways in which building a vocabulary can fail.

use vstd::prelude::*;
use vstd::string::*;

verus! {

/// Why a vocabulary could not be built. Looking a token or an id up never fails.
#[derive(Debug)]
pub enum TokenizerError {
    /// The vocabulary file could not be opened or read. Holds the path and the cause.
    FileNotFound(String),
    /// The bytes of the vocabulary file are not what the format asks for. Holds the parser's
    /// report.
    VocabularyParsingError(String),
    /// A reserved token that the vocabulary file has to provide is not in it. Holds the token.
    TokenNotFound(String),
    /// A language code is neither two nor three characters long. Holds the code.
    InvalidLanguageCode(String),
}

/// The text of a `FileNotFound` error for the file at `path` that failed with `cause`.
pub open spec fn file_not_found_text(path: Seq<char>, cause: Seq<char>) -> Seq<char> {
    path + " vocabulary file not found :"@ + cause
}

/// The text that describes a missing reserved token.
pub open spec fn token_not_found_text(token: Seq<char>) -> Seq<char> {
    "The special value "@ + token + " could not be found in the vocabulary"@
}

/// The text that describes a language code of the wrong length.
pub open spec fn invalid_language_code_text(code: Seq<char>) -> Seq<char> {
    "Language codes have length 2 or 3, which does not hold of "@ + code
}

impl TokenizerError {
    /// What the error says, as a sequence of characters.
    pub open spec fn text(&self) -> Seq<char> {
        match self {
            TokenizerError::FileNotFound(report) => report@,
            TokenizerError::VocabularyParsingError(report) => report@,
            TokenizerError::TokenNotFound(token) => token_not_found_text(token@),
            TokenizerError::InvalidLanguageCode(code) => invalid_language_code_text(code@),
        }
    }

    /// The error for a vocabulary file at `path` that could not be opened or read because of
    /// `cause`.
    pub fn file_not_found(path: &str, cause: &str) -> (error: TokenizerError)
        ensures
            error matches TokenizerError::FileNotFound(report) && report@ == file_not_found_text(
                path@,
                cause@,
            ),
    {
        let mut report = String::from_str(path);
        report.append(" vocabulary file not found :");
        report.append(cause);
        TokenizerError::FileNotFound(report)
    }

    /// What the error says.
    pub fn message(&self) -> (text: String)
        ensures
            text@ == self.text(),
    {
        match self {
            TokenizerError::FileNotFound(report) => report.clone(),
            TokenizerError::VocabularyParsingError(report) => report.clone(),
            TokenizerError::TokenNotFound(token) => {
                let mut text = String::from_str("The special value ");
                text.append(token.as_str());
                text.append(" could not be found in the vocabulary");
                text
            },
            TokenizerError::InvalidLanguageCode(code) => {
                let mut text = String::from_str(
                    "Language codes have length 2 or 3, which does not hold of ",
                );
                text.append(code.as_str());
                text
            },
        }
    }
}

} // verus!
