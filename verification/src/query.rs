//! The text form of a filter.
//!
//! A query is a line of words, parted by blanks and read from left to
//! right:
//!
//! - `:no-tag` asks for entries without any tag;
//! - `:file=TEXT` asks for entries whose file name holds `TEXT`, whatever
//!   the case of either; a query has at most one such word;
//! - any other word that begins with `:` is refused;
//! - `!NAME` excludes the tag called `NAME`;
//! - any other word is the name of a tag that is required.
//!
//! A name stands for the first tag, by ascending identifier, that has it as
//! its name or as an alias. A name that no tag has is not an error: it is
//! handed back, so that the caller can offer to create the tag.

use crate::db::local::{DbView, LocalDb};
use crate::db::uid::{Uid, UidSet};
use crate::filter_spec::{FilterSpec, FilterSpecView};
use crate::text::{chars_of, lowercase, lowercase_of, split_words, texts, words_of};
use vstd::prelude::*;

verus! {

/// The word that asks for entries without any tag.
pub const NO_TAG: &'static str = ":no-tag";

/// What a word of a query says.
pub enum Word {
    /// The entry has no tag.
    NoTag,
    /// The entry's file name holds the text.
    File(Seq<char>),
    /// Nothing: the word begins like a directive and is none.
    Unknown,
    /// The entry does not have the tag of this name.
    Exclude(Seq<char>),
    /// The entry has the tag of this name.
    Require(Seq<char>),
}

/// A word of a query, read.
#[derive(Debug, Clone, PartialEq, Eq)]
pub enum Token {
    /// The word that asks for entries without any tag.
    NoTag,
    /// A word that gives this text for the file name.
    File(String),
    /// A word that begins like a directive and is none.
    Unknown,
    /// A word that excludes the tag of this name.
    Exclude(String),
    /// A word that requires the tag of this name.
    Require(String),
}

impl View for Token {
    type V = Word;

    open spec fn view(&self) -> Word {
        match self {
            Token::NoTag => Word::NoTag,
            Token::File(text) => Word::File(text@),
            Token::Unknown => Word::Unknown,
            Token::Exclude(name) => Word::Exclude(name@),
            Token::Require(name) => Word::Require(name@),
        }
    }
}

/// Why a query was refused.
#[derive(Debug, Clone, Copy, PartialEq, Eq, Structural)]
pub enum ParseError {
    /// The word at this position, counted from 0, begins with `:` and is no
    /// directive: it may be a directive spelt wrong, or meant as the name
    /// of a tag.
    UnknownDirective { word: usize },
    /// The word at this position, counted from 0, gives a text for the file
    /// name, and an earlier word gave one: which of them is meant is open.
    RepeatedFileName { word: usize },
}

/// How a word begins that gives a text for the file name.
pub open spec fn file_prefix() -> Seq<char> {
    seq![':', 'f', 'i', 'l', 'e', '=']
}

/// What the word says.
pub open spec fn word_kind(word: Seq<char>) -> Word {
    if word == NO_TAG@ {
        Word::NoTag
    } else if word.len() > 0 && word[0] == ':' {
        if word.len() >= 6 && word.take(6) == file_prefix() {
            Word::File(word.skip(6))
        } else {
            Word::Unknown
        }
    } else if word.len() > 0 && word[0] == '!' {
        Word::Exclude(word.skip(1))
    } else {
        Word::Require(word)
    }
}

/// One of the first `upto` words gives a text for the file name.
pub open spec fn file_before(words: Seq<Seq<char>>, upto: int) -> bool {
    exists|j: int| 0 <= j < upto && j < words.len() && word_kind(#[trigger] words[j]) is File
}

/// Why the word at position `at` is refused, if it is.
pub open spec fn error_at(words: Seq<Seq<char>>, at: int) -> Option<ParseError> {
    match word_kind(words[at]) {
        Word::Unknown => Some(ParseError::UnknownDirective { word: at as usize }),
        Word::File(_) => if file_before(words, at) {
            Some(ParseError::RepeatedFileName { word: at as usize })
        } else {
            None
        },
        _ => None,
    }
}

/// Why the first of the first `upto` words that is refused is refused, if
/// one of them is.
pub open spec fn first_error(words: Seq<Seq<char>>, upto: int) -> Option<ParseError>
    decreases upto,
{
    if upto <= 0 || upto > words.len() {
        None
    } else {
        match first_error(words, upto - 1) {
            Some(e) => Some(e),
            None => error_at(words, upto - 1),
        }
    }
}

/// The tags that the first `upto` words require.
pub open spec fn required(db: DbView, words: Seq<Seq<char>>, upto: int) -> Set<Uid> {
    Set::new(
        |id: Uid|
            exists|j: int|
                0 <= j < upto && j < words.len() && word_kind(#[trigger] words[j]) is Require
                    && db.first_named(id, words[j]),
    )
}

/// The tags that the first `upto` words exclude.
pub open spec fn excluded(db: DbView, words: Seq<Seq<char>>, upto: int) -> Set<Uid> {
    Set::new(
        |id: Uid|
            exists|j: int|
                0 <= j < upto && j < words.len() && word_kind(#[trigger] words[j]) is Exclude
                    && db.first_named(id, words[j].skip(1)),
    )
}

/// One of the first `upto` words asks for entries without any tag.
pub open spec fn asks_no_tag(words: Seq<Seq<char>>, upto: int) -> bool {
    exists|j: int| 0 <= j < upto && j < words.len() && word_kind(#[trigger] words[j]) is NoTag
}

/// The text for the file name that the first `upto` words give, in lower
/// case: that of the last word that gives one, or the empty text.
pub open spec fn file_text(words: Seq<Seq<char>>, upto: int) -> Seq<char>
    decreases upto,
{
    if upto <= 0 || upto > words.len() {
        Seq::empty()
    } else {
        match word_kind(words[upto - 1]) {
            Word::File(text) => lowercase_of(text),
            _ => file_text(words, upto - 1),
        }
    }
}

/// The names among the first `upto` words that no tag has, in their order.
pub open spec fn unknown_names(db: DbView, words: Seq<Seq<char>>, upto: int) -> Seq<Seq<char>>
    decreases upto,
{
    if upto <= 0 || upto > words.len() {
        Seq::empty()
    } else {
        let before = unknown_names(db, words, upto - 1);
        match word_kind(words[upto - 1]) {
            Word::Require(name) => if db.unnamed(name) {
                before.push(name)
            } else {
                before
            },
            Word::Exclude(name) => if db.unnamed(name) {
                before.push(name)
            } else {
                before
            },
            _ => before,
        }
    }
}

/// The filter that the words ask for, where none of them is refused.
pub open spec fn parsed(db: DbView, words: Seq<Seq<char>>) -> FilterSpecView {
    FilterSpecView {
        has_tags: required(db, words, words.len() as int),
        filename_substring: file_text(words, words.len() as int),
        doesnt_have_tags: excluded(db, words, words.len() as int),
        doesnt_have_any_tags: asks_no_tag(words, words.len() as int),
    }
}

/// Once a word is refused, reading on does not change why.
pub proof fn lemma_error_stays(words: Seq<Seq<char>>, at: int, upto: int)
    requires
        0 <= at <= upto <= words.len(),
        first_error(words, at) is Some,
    ensures
        first_error(words, upto) == first_error(words, at),
    decreases upto - at,
{
    if at < upto {
        lemma_error_stays(words, at, upto - 1);
    }
}

/// Reads one word of a query.
pub fn read_word(word: &str) -> (token: Token)
    ensures
        token@ == word_kind(word@),
{
    let chars = chars_of(word);
    let n: usize = chars.len();
    let this = word.to_owned();
    let no_tag = NO_TAG.to_owned();
    if this == no_tag {
        Token::NoTag
    } else if n > 0 && chars[0] == ':' {
        if n >= 6 && chars[1] == 'f' && chars[2] == 'i' && chars[3] == 'l' && chars[4] == 'e'
            && chars[5] == '=' {
            assert(word@.take(6) =~= file_prefix());
            let text = word.substring_char(6, n).to_owned();
            Token::File(text)
        } else {
            Token::Unknown
        }
    } else if n > 0 && chars[0] == '!' {
        let name = word.substring_char(1, n).to_owned();
        Token::Exclude(name)
    } else {
        Token::Require(this)
    }
}

impl FilterSpec {
    /// Makes this filter the one that the query `text` asks for, with the
    /// names of tags looked up in `db`.
    ///
    /// Returns the names that no tag has, in their order. Where a word of
    /// the query is refused, the filter stays as it was and the first such
    /// word is reported.
    pub fn parse_and_resolve(&mut self, text: &str, db: &LocalDb) -> (unknown: Result<
        Vec<String>,
        ParseError,
    >)
        requires
            db.wf(),
        ensures
            match first_error(words_of(text@), words_of(text@).len() as int) {
                Some(e) => unknown == Err::<Vec<String>, ParseError>(e) && *final(self) == *old(
                    self,
                ),
                None => unknown is Ok && texts(unknown->Ok_0@) == unknown_names(
                    db@,
                    words_of(text@),
                    words_of(text@).len() as int,
                ) && final(self).wf() && final(self)@ == parsed(db@, words_of(text@)),
            },
    {
        let list = split_words(text);
        let ghost words = words_of(text@);
        let mut has_tags = UidSet::new();
        let mut doesnt_have_tags = UidSet::new();
        let mut doesnt_have_any_tags = false;
        let mut filename_substring = String::new();
        let mut file_seen = false;
        let mut unknown: Vec<String> = Vec::new();
        let mut i: usize = 0;
        while i < list.len()
            invariant
                db.wf(),
                words == words_of(text@),
                list@.len() == words.len(),
                forall|k: int| 0 <= k < list@.len() ==> (#[trigger] list@[k])@ == words[k],
                i <= list.len(),
                *self == *old(self),
                first_error(words, i as int) is None,
                has_tags.wf(),
                doesnt_have_tags.wf(),
                has_tags@ == required(db@, words, i as int),
                doesnt_have_tags@ == excluded(db@, words, i as int),
                doesnt_have_any_tags == asks_no_tag(words, i as int),
                file_seen == file_before(words, i as int),
                filename_substring@ == file_text(words, i as int),
                texts(unknown@) == unknown_names(db@, words, i as int),
            decreases list.len() - i,
        {
            match read_word(list[i].as_str()) {
                Token::NoTag => {
                    doesnt_have_any_tags = true;
                },
                Token::File(file) => {
                    if file_seen {
                        proof {
                            lemma_error_stays(words, i + 1, words.len() as int);
                        }
                        return Err(ParseError::RepeatedFileName { word: i });
                    }
                    filename_substring = lowercase(file.as_str());
                    file_seen = true;
                },
                Token::Unknown => {
                    proof {
                        lemma_error_stays(words, i + 1, words.len() as int);
                    }
                    return Err(ParseError::UnknownDirective { word: i });
                },
                Token::Exclude(name) => {
                    let found = db.resolve_tag(name.as_str());
                    match found {
                        Some(id) => {
                            doesnt_have_tags.insert(id);
                        },
                        None => {
                            unknown.push(name);
                        },
                    }
                },
                Token::Require(name) => {
                    let found = db.resolve_tag(name.as_str());
                    match found {
                        Some(id) => {
                            has_tags.insert(id);
                        },
                        None => {
                            unknown.push(name);
                        },
                    }
                },
            }
            i = i + 1;
        }
        self.has_tags = has_tags;
        self.filename_substring = filename_substring;
        self.doesnt_have_tags = doesnt_have_tags;
        self.doesnt_have_any_tags = doesnt_have_any_tags;
        Ok(unknown)
    }
}

} // verus!
