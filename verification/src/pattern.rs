//! Lexeme patterns: the predicates by which a terminal recognises a token.
use crate::equality::word_texts;
use vstd::prelude::*;
use vstd::string::*;

verus! {

/// Whether a character is alphabetic in the sense of the Unicode standard.
pub uninterp spec fn alphabetic(c: char) -> bool;

/// Calls `char::is_alphabetic`; its answer for a character is what the
/// library calls [`alphabetic`] of that character.
#[verifier::external_body]
fn is_alphabetic(c: char) -> (r: bool)
    ensures
        r == alphabetic(c),
{
    c.is_alphabetic()
}

/// Whether a character is written with one byte: it is one of the first
/// 128.
pub open spec fn one_byte(c: char) -> bool {
    c as u32 <= 0x7f
}

/// The characters of a string, in order.
pub fn chars_of(text: &String) -> (r: Vec<char>)
    ensures
        r@ == text@,
{
    let s = text.as_str();
    let n = s.unicode_len();
    let mut out: Vec<char> = Vec::new();
    let mut i: usize = 0;
    while i < n
        invariant
            i <= n,
            n == s@.len(),
            out@ == s@.subrange(0, i as int),
        decreases n - i,
    {
        out.push(s.get_char(i));
        assert(out@ =~= s@.subrange(0, i + 1));
        i += 1;
    }
    assert(out@ =~= s@);
    out
}

/// Whether `c` occurs in `set`.
pub fn contains_char(set: &Vec<char>, c: char) -> (r: bool)
    ensures
        r == set@.contains(c),
{
    let mut i: usize = 0;
    while i < set.len()
        invariant
            i <= set.len(),
            forall|j: int| 0 <= j < i ==> set[j] != c,
        decreases set.len() - i,
    {
        if set[i] == c {
            return true;
        }
        i += 1;
    }
    false
}

/// Whether `part` occurs in `text` at offset `at`.
pub open spec fn occurs_at(text: Seq<char>, part: Seq<char>, at: int) -> bool {
    0 <= at && at + part.len() <= text.len() && text.subrange(at, at + part.len()) == part
}

/// Whether `part` is a contiguous piece of `text`.
pub open spec fn is_substring(text: Seq<char>, part: Seq<char>) -> bool {
    exists|at: int| occurs_at(text, part, at)
}

fn occurs_here(text: &Vec<char>, part: &Vec<char>, at: usize) -> (r: bool)
    requires
        at + part.len() <= text.len(),
    ensures
        r == occurs_at(text@, part@, at as int),
{
    let mut i: usize = 0;
    while i < part.len()
        invariant
            i <= part.len(),
            at + part.len() <= text.len(),
            forall|j: int| 0 <= j < i ==> text[at + j] == part[j],
        decreases part.len() - i,
    {
        if text[at + i] != part[i] {
            assert(text@.subrange(at as int, at + part.len())[i as int] == text[at + i]);
            return false;
        }
        i += 1;
    }
    assert(text@.subrange(at as int, at + part.len()) =~= part@);
    true
}

/// Whether `part` is a contiguous piece of `text`.
pub fn substring_of(text: &Vec<char>, part: &Vec<char>) -> (r: bool)
    ensures
        r == is_substring(text@, part@),
{
    if part.len() > text.len() {
        return false;
    }
    if part.len() == 0 {
        assert(text@.subrange(0, 0) =~= part@);
        assert(occurs_at(text@, part@, 0));
        return true;
    }
    let last = text.len() - part.len();
    let mut at: usize = 0;
    while at <= last
        invariant
            at <= last + 1,
            last == text.len() - part.len(),
            0 < part.len() <= text.len(),
            forall|k: int| 0 <= k < at ==> !occurs_at(text@, part@, k),
        decreases last + 1 - at,
    {
        if occurs_here(text, part, at) {
            return true;
        }
        at += 1;
    }
    false
}

/// Whether `lexeme` is one of `words`.
pub open spec fn has_word(words: Seq<String>, lexeme: Seq<char>) -> bool {
    exists|i: int| 0 <= i < words.len() && (#[trigger] words[i])@ == lexeme
}

/// A predicate over lexemes.
#[derive(Debug)]
pub enum Pattern {
    /// The lexeme is exactly this text.
    Exact(String),
    /// The lexeme is one of these words.
    AnyOf(Vec<String>),
    /// Every character of the lexeme occurs in this set; the empty lexeme
    /// matches.
    CharsIn(String),
    /// The lexeme is a single character that occurs in this set.
    CharIn(String),
    /// The lexeme is a contiguous piece of this text; the empty lexeme
    /// matches.
    SubstringOf(String),
    /// The lexeme is a single alphabetic character that is written with
    /// one byte.
    Alphabetic,
}

impl Pattern {
    /// Whether the pattern matches `lexeme`.
    pub open spec fn accepts(&self, lexeme: Seq<char>) -> bool {
        match self {
            Pattern::Exact(text) => lexeme == text@,
            Pattern::AnyOf(words) => has_word(words@, lexeme),
            Pattern::CharsIn(set) => forall|i: int|
                0 <= i < lexeme.len() ==> set@.contains(#[trigger] lexeme[i]),
            Pattern::CharIn(set) => lexeme.len() == 1 && set@.contains(lexeme[0]),
            Pattern::SubstringOf(text) => is_substring(text@, lexeme),
            Pattern::Alphabetic => lexeme.len() == 1 && one_byte(lexeme[0]) && alphabetic(
                lexeme[0],
            ),
        }
    }

    /// Decides whether the pattern matches `lexeme`.
    pub fn matches(&self, lexeme: &String) -> (r: bool)
        ensures
            r == self.accepts(lexeme@),
    {
        match self {
            Pattern::Exact(text) => *lexeme == *text,
            Pattern::AnyOf(words) => {
                let mut i: usize = 0;
                while i < words.len()
                    invariant
                        i <= words.len(),
                        *self == Pattern::AnyOf(*words),
                        forall|j: int| 0 <= j < i ==> words[j]@ != lexeme@,
                    decreases words.len() - i,
                {
                    if words[i] == *lexeme {
                        assert(0 <= i < words.len() && words[i as int]@ == lexeme@);
                        return true;
                    }
                    i += 1;
                }
                false
            },
            Pattern::CharsIn(text) => {
                let set = chars_of(text);
                let chars = chars_of(lexeme);
                let mut i: usize = 0;
                while i < chars.len()
                    invariant
                        i <= chars.len(),
                        chars@ == lexeme@,
                        set@ == text@,
                        *self == Pattern::CharsIn(*text),
                        forall|j: int| 0 <= j < i ==> set@.contains(#[trigger] chars[j]),
                    decreases chars.len() - i,
                {
                    if !contains_char(&set, chars[i]) {
                        return false;
                    }
                    i += 1;
                }
                true
            },
            Pattern::CharIn(set) => {
                let set = chars_of(set);
                let chars = chars_of(lexeme);
                chars.len() == 1 && contains_char(&set, chars[0])
            },
            Pattern::SubstringOf(text) => {
                let text = chars_of(text);
                let chars = chars_of(lexeme);
                substring_of(&text, &chars)
            },
            Pattern::Alphabetic => {
                let chars = chars_of(lexeme);
                chars.len() == 1 && chars[0] as u32 <= 0x7f && is_alphabetic(chars[0])
            },
        }
    }

    /// A copy of the pattern.
    pub fn duplicate(&self) -> (r: Pattern)
        ensures
            forall|lexeme: Seq<char>| r.accepts(lexeme) == self.accepts(lexeme),
            r.shape() == self.shape(),
    {
        match self {
            Pattern::Exact(text) => Pattern::Exact(text.clone()),
            Pattern::AnyOf(words) => {
                let mut copy: Vec<String> = Vec::new();
                let mut i: usize = 0;
                while i < words.len()
                    invariant
                        i <= words.len(),
                        copy.len() == i,
                        *self == Pattern::AnyOf(*words),
                        forall|j: int| 0 <= j < i ==> copy[j]@ == words[j]@,
                    decreases words.len() - i,
                {
                    copy.push(words[i].clone());
                    i += 1;
                }
                let r = Pattern::AnyOf(copy);
                assert(word_texts(copy@) =~= word_texts(words@));
                assert forall|lexeme: Seq<char>| r.accepts(lexeme) == self.accepts(lexeme) by {
                    if has_word(copy@, lexeme) {
                        let i = choose|i: int| 0 <= i < copy.len() && (#[trigger] copy[i])@ == lexeme;
                        assert(words[i]@ == lexeme);
                    }
                    if has_word(words@, lexeme) {
                        let i = choose|i: int| 0 <= i < words.len() && (#[trigger] words[i])@ == lexeme;
                        assert(copy[i]@ == lexeme);
                    }
                }
                r
            },
            Pattern::CharsIn(set) => Pattern::CharsIn(set.clone()),
            Pattern::CharIn(set) => Pattern::CharIn(set.clone()),
            Pattern::SubstringOf(text) => Pattern::SubstringOf(text.clone()),
            Pattern::Alphabetic => Pattern::Alphabetic,
        }
    }
}

impl Clone for Pattern {
    fn clone(&self) -> (r: Pattern)
        ensures
            forall|lexeme: Seq<char>| r.accepts(lexeme) == self.accepts(lexeme),
            r.shape() == self.shape(),
    {
        self.duplicate()
    }
}

} // verus!
