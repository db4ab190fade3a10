//! Splitting a command line of the interactive shell into words.

use vstd::prelude::*;
use crate::stored::push_char;

verus! {

/// Relies on str::chars, collected: the characters of the text in order.
#[verifier::external_body]
fn chars_of(s: &str) -> (r: Vec<char>)
    ensures
        r@ == s@,
{
    s.chars().collect()
}

/// The state of the tokenizer: finished words, the word being read,
/// whether inside quotes, and whether the next character is escaped.
pub struct LexState {
    pub words: Seq<Seq<char>>,
    pub word: Seq<char>,
    pub quoted: bool,
    pub escaped: bool,
}

/// Whether `c` opens or closes a quoted part.
pub open spec fn is_quote(c: char) -> bool {
    c == '"' || c == '\'' || c == '`'
}

/// One character read: line breaks are dropped; an escaped character is
/// kept as it is; a backslash escapes the next one; a quote toggles quoting
/// and is dropped; a space outside quotes ends a non-empty word; anything
/// else extends the word.
pub open spec fn step(st: LexState, c: char) -> LexState {
    if c == '\n' || c == '\r' {
        st
    } else if st.escaped {
        LexState { word: st.word.push(c), escaped: false, ..st }
    } else if c == '\\' {
        LexState { escaped: true, ..st }
    } else if is_quote(c) {
        LexState { quoted: !st.quoted, ..st }
    } else if c == ' ' && !st.quoted {
        if st.word.len() > 0 {
            LexState { words: st.words.push(st.word), word: Seq::empty(), ..st }
        } else {
            st
        }
    } else {
        LexState { word: st.word.push(c), ..st }
    }
}

/// The state after reading `cs` from the start.
pub open spec fn lex(cs: Seq<char>) -> LexState
    decreases cs.len(),
{
    if cs.len() == 0 {
        LexState { words: Seq::empty(), word: Seq::empty(), quoted: false, escaped: false }
    } else {
        step(lex(cs.drop_last()), cs.last())
    }
}

/// The words of a line: those finished, and the last one if not empty.
pub open spec fn words_of(cs: Seq<char>) -> Seq<Seq<char>> {
    let st = lex(cs);
    if st.word.len() > 0 {
        st.words.push(st.word)
    } else {
        st.words
    }
}

pub open spec fn views(v: Seq<String>) -> Seq<Seq<char>> {
    v.map_values(|s: String| s@)
}

/// Splits a command line into words at spaces. Quotes (`"`, `'`, `` ` ``)
/// group words with spaces and are dropped; a backslash keeps the next
/// character as it is; line breaks are ignored.
pub fn tokenize_line(line: &str) -> (r: Vec<String>)
    ensures
        views(r@) == words_of(line@),
{
    let cs = chars_of(line);
    let mut words: Vec<String> = Vec::new();
    let mut word = String::new();
    let mut quoted = false;
    let mut escaped = false;
    let mut i: usize = 0;
    proof {
        assert(cs@.subrange(0, 0) =~= Seq::<char>::empty());
        assert(views(words@) =~= Seq::<Seq<char>>::empty());
    }
    while i < cs.len()
        invariant
            i <= cs@.len(),
            cs@ == line@,
            lex(cs@.subrange(0, i as int)).words =~= views(words@),
            lex(cs@.subrange(0, i as int)).word =~= word@,
            lex(cs@.subrange(0, i as int)).quoted == quoted,
            lex(cs@.subrange(0, i as int)).escaped == escaped,
        decreases cs@.len() - i,
    {
        let c = cs[i];
        let ghost pre = cs@.subrange(0, i as int);
        let ghost st = lex(pre);
        proof {
            assert(cs@.subrange(0, i + 1).drop_last() =~= pre);
            assert(cs@.subrange(0, i + 1).last() == c);
            assert(lex(cs@.subrange(0, i + 1)) == step(st, c));
        }
        if c == '\n' || c == '\r' {
        } else if escaped {
            push_char(&mut word, c);
            escaped = false;
        } else if c == '\\' {
            escaped = true;
        } else if c == '"' || c == '\'' || c == '`' {
            quoted = !quoted;
        } else if c == ' ' && !quoted {
            if !word.as_str().is_empty() {
                let ghost before = words@;
                let finished = word;
                words.push(finished);
                word = String::new();
                proof {
                    assert(views(words@) =~= views(before).push(finished@));
                }
            }
        } else {
            push_char(&mut word, c);
        }
        i = i + 1;
    }
    proof {
        assert(cs@.subrange(0, cs@.len() as int) =~= cs@);
    }
    let ghost done = views(words@);
    if !word.as_str().is_empty() {
        let ghost before = words@;
        let last = word;
        words.push(last);
        proof {
            assert(views(words@) =~= views(before).push(last@));
        }
    }
    proof {
        if lex(line@).word.len() == 0 {
            assert(views(words@) =~= done);
        }
    }
    words
}

} // verus!
