//! Tokens of a line for ranking: lower-cased runs of word characters.
use vstd::prelude::*;
use crate::text::{is_word, is_word_char, string_of, text_chars};

verus! {

/// The lower-case form of `s`, as `str::to_lowercase` gives it.
pub uninterp spec fn lowercase(s: Seq<char>) -> Seq<char>;

/// `str::to_lowercase`. Claimed: the result is a function of the characters
/// of `s` alone, named `lowercase`, and has at least as many characters as
/// `s` (each character lower-cases to one or more); the Unicode case mapping
/// itself is left to std and not stated.
#[verifier::external_body]
fn to_lowercase(s: &str) -> (r: String)
    ensures
        r@ == lowercase(s@),
        s@.len() <= r@.len(),
{
    s.to_lowercase()
}

/// The maximal runs of word characters in `s`, in order (`\w+`).
pub open spec fn word_runs(s: Seq<char>) -> Seq<Seq<char>>
    decreases s.len(),
{
    if s.len() == 0 {
        Seq::empty()
    } else {
        let prev = word_runs(s.drop_last());
        let c = s.last();
        if !is_word(c) {
            prev
        } else if s.len() >= 2 && is_word(s[s.len() - 2]) {
            prev.update(prev.len() - 1, prev.last().push(c))
        } else {
            prev.push(seq![c])
        }
    }
}

/// The tokens of `line`: its runs of word characters, lower-cased. No token
/// is empty.
pub fn tokenize(line: &str) -> (tokens: Vec<String>)
    ensures
        tokens@.len() == word_runs(line@).len(),
        forall|k: int|
            0 <= k < tokens@.len() ==> (#[trigger] tokens@[k])@ == lowercase(word_runs(line@)[k]),
        forall|k: int| 0 <= k < tokens@.len() ==> (#[trigger] tokens@[k])@.len() > 0,
{
    let s = text_chars(line);
    let mut tokens: Vec<String> = Vec::new();
    let mut cur: Vec<char> = Vec::new();
    let mut in_run = false;
    let mut i: usize = 0;
    while i < s.len()
        invariant
            i <= s@.len(),
            in_run == (i > 0 && is_word(s@[i - 1])),
            !in_run ==> cur@.len() == 0,
            in_run ==> cur@.len() > 0,
            forall|k: int| 0 <= k < tokens@.len() ==> (#[trigger] tokens@[k])@.len() > 0,
            ({
                let runs = word_runs(s@.take(i as int));
                if in_run {
                    &&& runs.len() >= 1
                    &&& tokens@.len() == runs.len() - 1
                    &&& cur@ == runs.last()
                    &&& forall|k: int|
                        0 <= k < tokens@.len() ==> (#[trigger] tokens@[k])@ == lowercase(runs[k])
                } else {
                    &&& tokens@.len() == runs.len()
                    &&& forall|k: int|
                        0 <= k < tokens@.len() ==> (#[trigger] tokens@[k])@ == lowercase(runs[k])
                }
            }),
        decreases s@.len() - i,
    {
        let c = s[i];
        proof {
            assert(s@.take(i + 1).drop_last() =~= s@.take(i as int));
            assert(s@.take(i + 1).last() == c);
            if i > 0 {
                assert(s@.take(i + 1)[i - 1] == s@[i - 1]);
            }
        }
        if is_word_char(c) {
            cur.push(c);
            if !in_run {
                proof {
                    assert(cur@ =~= seq![c]);
                }
            }
            in_run = true;
        } else if in_run {
            let token = to_lowercase(string_of(&cur).as_str());
            tokens.push(token);
            cur = Vec::new();
            in_run = false;
        }
        i = i + 1;
    }
    if in_run {
        let token = to_lowercase(string_of(&cur).as_str());
        tokens.push(token);
    }
    assert(s@.take(s@.len() as int) =~= s@);
    tokens
}

} // verus!
