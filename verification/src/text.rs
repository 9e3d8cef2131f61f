//! Text at the level of characters: the final component of a path, the
//! words of a query, containment of one text in another, and lower case.

use vstd::prelude::*;

verus! {

/// The characters of `text`, one by one.
pub fn chars_of(text: &str) -> (chars: Vec<char>)
    ensures
        chars@ == text@,
{
    let mut chars: Vec<char> = Vec::new();
    for c in it: text.chars()
        invariant
            it.seq() == text@,
            chars@ == text@.take(it.index() as int),
    {
        chars.push(c);
    }
    chars
}

/// The texts that a list of strings holds.
pub open spec fn texts(strings: Seq<String>) -> Seq<Seq<char>> {
    strings.map_values(|s: String| s@)
}

/// What `str::to_lowercase` makes of a text: its lower-case form by the
/// Unicode rules that the standard library was built with.
pub uninterp spec fn lowercase_of(text: Seq<char>) -> Seq<char>;

/// The lower-case form of `text`.
///
/// Calls `str::to_lowercase`. The contract only names the result: the same
/// characters always give the same lower-case form. Nothing is claimed
/// about what that form is.
#[verifier::external_body]
pub(crate) fn lowercase(text: &str) -> (lower: String)
    ensures
        lower@ == lowercase_of(text@),
{
    text.to_lowercase()
}

/// `needle` stands in `hay` at position `at`.
pub open spec fn occurs_at(needle: Seq<char>, hay: Seq<char>, at: int) -> bool {
    &&& 0 <= at
    &&& at + needle.len() <= hay.len()
    &&& hay.subrange(at, at + needle.len()) == needle
}

/// `needle` stands somewhere in `hay`. The empty text stands in every text.
pub open spec fn occurs_in(needle: Seq<char>, hay: Seq<char>) -> bool {
    exists|at: int| occurs_at(needle, hay, at)
}

/// Whether `needle` stands in `hay` at position `at`.
pub fn has_at(needle: &Vec<char>, hay: &Vec<char>, at: usize) -> (b: bool)
    requires
        at + needle.len() <= hay.len(),
    ensures
        b == occurs_at(needle@, hay@, at as int),
{
    let mut k: usize = 0;
    while k < needle.len()
        invariant
            k <= needle.len(),
            at + needle.len() <= hay.len(),
            forall|j: int| 0 <= j < k ==> hay[at + j] == needle[j],
        decreases needle.len() - k,
    {
        if hay[at + k] != needle[k] {
            return false;
        }
        k = k + 1;
    }
    assert(hay@.subrange(at as int, at + needle.len()) =~= needle@);
    true
}

/// Whether `needle` stands somewhere in `hay`.
pub fn contains_text(hay: &Vec<char>, needle: &Vec<char>) -> (b: bool)
    ensures
        b == occurs_in(needle@, hay@),
{
    if needle.len() > hay.len() {
        return false;
    }
    let last: usize = hay.len() - needle.len();
    let mut at: usize = 0;
    while at < last
        invariant
            last == hay.len() - needle.len(),
            needle.len() <= hay.len(),
            at <= last,
            forall|j: int| 0 <= j < at ==> !occurs_at(needle@, hay@, j),
        decreases last - at,
    {
        if has_at(needle, hay, at) {
            return true;
        }
        at = at + 1;
    }
    has_at(needle, hay, last)
}

/// The character that parts the components of a path.
pub open spec fn is_separator(c: char) -> bool {
    c == '/'
}

/// Where the final component of `path` begins, looking at its first `end`
/// characters: just behind their last separator, or at 0 if they hold none.
pub open spec fn name_start(path: Seq<char>, end: int) -> int
    decreases end,
{
    if end <= 0 {
        0
    } else if is_separator(path[end - 1]) {
        end
    } else {
        name_start(path, end - 1)
    }
}

/// The final component of a path: what follows its last separator, the
/// whole path if it holds none.
pub open spec fn file_name_of(path: Seq<char>) -> Seq<char> {
    path.skip(name_start(path, path.len() as int))
}

/// What precedes the final component of a path, the last separator
/// included.
pub open spec fn folder_of(path: Seq<char>) -> Seq<char> {
    path.take(name_start(path, path.len() as int))
}

/// The final component holds no separator, and a separator stands just
/// before it unless it begins the path.
pub proof fn lemma_name_start(path: Seq<char>, end: int)
    requires
        0 <= end <= path.len(),
    ensures
        0 <= name_start(path, end) <= end,
        name_start(path, end) > 0 ==> is_separator(path[name_start(path, end) - 1]),
        forall|j: int| name_start(path, end) <= j < end ==> !is_separator(path[j]),
    decreases end,
{
    if end > 0 && !is_separator(path[end - 1]) {
        lemma_name_start(path, end - 1);
    }
}

/// Where the final component of `path` begins.
pub fn file_name_start(path: &Vec<char>) -> (start: usize)
    ensures
        start == name_start(path@, path.len() as int),
        start <= path.len(),
{
    let mut end: usize = path.len();
    while end > 0
        invariant
            end <= path.len(),
            name_start(path@, path.len() as int) == name_start(path@, end as int),
        decreases end,
    {
        if path[end - 1] == '/' {
            return end;
        }
        end = end - 1;
    }
    0
}

/// The final component of `path`.
pub fn file_name(path: &str) -> (name: String)
    ensures
        name@ == file_name_of(path@),
{
    let chars = chars_of(path);
    let start = file_name_start(&chars);
    path.substring_char(start, chars.len()).to_owned()
}

/// `path` with its final component replaced by `name`.
pub fn with_file_name(path: &str, name: &str) -> (renamed: String)
    ensures
        renamed@ == folder_of(path@) + name@,
{
    let chars = chars_of(path);
    let start = file_name_start(&chars);
    let folder = path.substring_char(0, start).to_owned();
    folder.concat(name)
}

/// The characters that part the words of a query: space, tab, line feed,
/// form feed and carriage return.
pub open spec fn is_blank(c: char) -> bool {
    c == ' ' || c == '\t' || c == '\n' || c == '\x0C' || c == '\r'
}

/// Whether `c` parts words.
pub fn blank(c: char) -> (b: bool)
    ensures
        b == is_blank(c),
{
    c == ' ' || c == '\t' || c == '\n' || c == '\x0C' || c == '\r'
}

/// Where the run of characters without a blank that ends at `end` begins.
/// It is `end` itself where a blank stands just before `end`.
pub open spec fn word_start(text: Seq<char>, end: int) -> int
    decreases end,
{
    if end <= 0 {
        0
    } else if is_blank(text[end - 1]) {
        end
    } else {
        word_start(text, end - 1)
    }
}

/// The words of a text: its maximal runs of characters without a blank,
/// from left to right. A text that ends in a blank has the words of the
/// text before that blank. Any other text ends in its last word, which
/// is preceded by the words of what stands before it.
pub open spec fn words_of(text: Seq<char>) -> Seq<Seq<char>>
    decreases text.len(),
{
    if text.len() == 0 {
        Seq::empty()
    } else if is_blank(text.last()) {
        words_of(text.drop_last())
    } else {
        let start = word_start(text, text.len() as int);
        if 0 <= start < text.len() {
            words_of(text.take(start)).push(text.skip(start))
        } else {
            Seq::empty()
        }
    }
}

/// A run that ends at `end` begins at or before `end`, holds no blank, and
/// has a blank just before it unless it begins the text.
pub proof fn lemma_word_start(text: Seq<char>, end: int)
    requires
        0 <= end <= text.len(),
    ensures
        0 <= word_start(text, end) <= end,
        end > 0 && !is_blank(text[end - 1]) ==> word_start(text, end) < end,
        word_start(text, end) > 0 ==> is_blank(text[word_start(text, end) - 1]),
        forall|j: int| word_start(text, end) <= j < end ==> !is_blank(text[j]),
    decreases end,
{
    if end > 0 && !is_blank(text[end - 1]) {
        lemma_word_start(text, end - 1);
    }
}

/// Where a run begins depends only on the characters before its end.
pub proof fn lemma_word_start_prefix(text: Seq<char>, len: int, end: int)
    requires
        0 <= end <= len <= text.len(),
    ensures
        word_start(text.take(len), end) == word_start(text, end),
    decreases end,
{
    if end > 0 {
        if !is_blank(text[end - 1]) {
            lemma_word_start_prefix(text, len, end - 1);
        }
    }
}

/// `word` holds at least one character and no blank.
pub open spec fn is_word(word: Seq<char>) -> bool {
    &&& word.len() > 0
    &&& forall|j: int| 0 <= j < word.len() ==> !is_blank(word[j])
}

/// Every word of a text holds at least one character and no blank.
pub proof fn lemma_words_are_words(text: Seq<char>)
    ensures
        forall|k: int| 0 <= k < words_of(text).len() ==> is_word(#[trigger] words_of(text)[k]),
    decreases text.len(),
{
    if text.len() == 0 {
    } else if is_blank(text.last()) {
        lemma_words_are_words(text.drop_last());
        assert(words_of(text) == words_of(text.drop_last()));
    } else {
        let start = word_start(text, text.len() as int);
        lemma_word_start(text, text.len() as int);
        lemma_words_are_words(text.take(start));
        let before = words_of(text.take(start));
    }
}

/// The words of `text`, from left to right.
pub fn split_words(text: &str) -> (words: Vec<String>)
    ensures
        words@.len() == words_of(text@).len(),
        forall|k: int| 0 <= k < words@.len() ==> (#[trigger] words@[k])@ == words_of(text@)[k],
{
    let chars = chars_of(text);
    let n: usize = chars.len();
    let mut words: Vec<String> = Vec::new();
    let mut start: usize = 0;
    let mut i: usize = 0;
    while i < n
        invariant
            chars@ == text@,
            n == chars.len(),
            start <= i <= n,
            start == word_start(text@, i as int),
            words@.len() == words_of(text@.take(start as int)).len(),
            forall|k: int|
                0 <= k < words@.len() ==> (#[trigger] words@[k])@ == words_of(
                    text@.take(start as int),
                )[k],
        decreases n - i,
    {
        if blank(chars[i]) {
            if start < i {
                let word = text.substring_char(start, i).to_owned();
                proof {
                    lemma_close_word(text@, start as int, i as int);
                }
                words.push(word);
            }
            proof {
                let upto = text@.take(i + 1);
                assert(upto.drop_last() =~= text@.take(i as int));
            }
            start = i + 1;
        }
        i = i + 1;
    }
    if start < n {
        let word = text.substring_char(start, n).to_owned();
        words.push(word);
    }
    proof {
        assert(text@.take(n as int) =~= text@);
    }
    words
}

/// The words of a text that ends in a word are the words of what stands
/// before that word, and the word.
pub proof fn lemma_close_word(text: Seq<char>, start: int, end: int)
    requires
        0 <= start < end <= text.len(),
        start == word_start(text, end),
    ensures
        words_of(text.take(end)) == words_of(text.take(start)).push(text.subrange(start, end)),
{
    let upto = text.take(end);
    lemma_word_start_prefix(text, end, end);
    assert(upto.take(start) =~= text.take(start));
    assert(upto.skip(start) =~= text.subrange(start, end));
}

} // verus!
