//! Splitting text into tokens at delimiter characters.
use crate::chart::lexemes;
use crate::pattern::{chars_of, contains_char};
use crate::scanner::Scanner;
use vstd::prelude::*;
use vstd::string::*;

verus! {

/// How many characters at the front of `text` are no delimiters.
pub open spec fn run_len(text: Seq<char>, delims: Seq<char>) -> nat
    decreases text.len(),
{
    if text.len() == 0 || delims.contains(text[0]) {
        0
    } else {
        1 + run_len(text.subrange(1, text.len() as int), delims)
    }
}

/// The tokens of `text`: every longest run of characters that are no
/// delimiters, and, unless `remove` is set, every delimiter by itself, in
/// the order of the text.
pub open spec fn split(text: Seq<char>, delims: Seq<char>, remove: bool) -> Seq<Seq<char>>
    decreases text.len(),
{
    if text.len() == 0 {
        Seq::empty()
    } else if delims.contains(text[0]) {
        let rest = split(text.subrange(1, text.len() as int), delims, remove);
        if remove {
            rest
        } else {
            seq![seq![text[0]]] + rest
        }
    } else {
        let run = run_len(text, delims) as int;
        if 0 < run <= text.len() {
            seq![text.subrange(0, run)] + split(
                text.subrange(run, text.len() as int),
                delims,
                remove,
            )
        } else {
            Seq::empty()
        }
    }
}

/// A run is no longer than the text, and holds no delimiter.
pub proof fn lemma_run(text: Seq<char>, delims: Seq<char>)
    ensures
        run_len(text, delims) <= text.len(),
        text.len() > 0 && !delims.contains(text[0]) ==> run_len(text, delims) > 0,
    decreases text.len(),
{
    if text.len() > 0 && !delims.contains(text[0]) {
        lemma_run(text.subrange(1, text.len() as int), delims);
    }
}

/// A run that starts one character later is one shorter.
proof fn lemma_run_grows(text: Seq<char>, delims: Seq<char>, from: int, to: int)
    requires
        0 <= from <= to <= text.len(),
        forall|j: int| from <= j < to ==> !delims.contains(#[trigger] text[j]),
        to == text.len() || delims.contains(text[to]),
    ensures
        run_len(text.subrange(from, text.len() as int), delims) == to - from,
    decreases to - from,
{
    let tail = text.subrange(from, text.len() as int);
    if from < to {
        assert(tail[0] == text[from]);
        lemma_run_grows(text, delims, from + 1, to);
        assert(tail.subrange(1, tail.len() as int) =~= text.subrange(from + 1, text.len() as int));
    } else if to < text.len() {
        assert(tail[0] == text[to]);
    }
}

/// A tokenizer that splits at any of a set of delimiter characters.
pub struct DelimTokenizer {}

impl DelimTokenizer {
    /// A scanner over the tokens of `src`, split at the characters of
    /// `delims`; with `remove` the delimiters themselves are left out.
    pub fn from_str(src: &str, delims: &str, remove: bool) -> (r: Scanner<String>)
        ensures
            lexemes(r.tokens()) == split(src@, delims@, remove),
            r.mark() == 0,
            r.taken() == 0,
    {
        let text = chars_of(&String::from_str(src));
        let marks = chars_of(&String::from_str(delims));
        let n = text.len();
        let mut out: Vec<String> = Vec::new();
        let mut i: usize = 0;
        proof {
            assert(text@.subrange(0, n as int) =~= text@);
            assert(lexemes(out@) + split(text@, marks@, remove) =~= split(text@, marks@, remove));
        }
        while i < n
            invariant
                i <= n,
                n == text.len(),
                text@ == src@,
                marks@ == delims@,
                lexemes(out@) + split(text@.subrange(i as int, n as int), marks@, remove) == split(
                    text@,
                    marks@,
                    remove,
                ),
            decreases n - i,
        {
            let ghost tail = text@.subrange(i as int, n as int);
            let ghost before = lexemes(out@);
            assert(tail[0] == text[i as int]);
            if contains_char(&marks, text[i]) {
                if !remove {
                    let token = String::from_str(src.substring_char(i, i + 1));
                    out.push(token);
                    proof {
                        assert(token@ =~= seq![text[i as int]]);
                        assert(lexemes(out@) =~= before + seq![seq![text[i as int]]]);
                    }
                }
                proof {
                    assert(tail.subrange(1, tail.len() as int) =~= text@.subrange(i + 1, n as int));
                    assert(lexemes(out@) + split(text@.subrange(i + 1, n as int), marks@, remove)
                        =~= before + split(tail, marks@, remove));
                }
                i += 1;
            } else {
                let mut j: usize = i + 1;
                while j < n && !contains_char(&marks, text[j])
                    invariant
                        i < j <= n,
                        n == text.len(),
                        forall|q: int| i <= q < j ==> !marks@.contains(#[trigger] text[q]),
                    decreases n - j,
                {
                    j += 1;
                }
                let token = String::from_str(src.substring_char(i, j));
                out.push(token);
                proof {
                    lemma_run_grows(text@, marks@, i as int, j as int);
                    assert(tail.subrange(0, j - i) =~= text@.subrange(i as int, j as int));
                    assert(tail.subrange(j - i, tail.len() as int) =~= text@.subrange(
                        j as int,
                        n as int,
                    ));
                    assert(lexemes(out@) =~= before + seq![token@]);
                    assert(lexemes(out@) + split(text@.subrange(j as int, n as int), marks@, remove)
                        =~= before + split(tail, marks@, remove));
                }
                i = j;
            }
        }
        proof {
            assert(text@.subrange(n as int, n as int) =~= Seq::<char>::empty());
            assert(lexemes(out@) =~= split(text@, marks@, remove));
        }
        Scanner::from_buf(out)
    }
}

} // verus!
