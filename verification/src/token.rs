//! The tokenizer: a single pass over raw bytes that yields the document's
//! lexical tokens, or a typed error.
//!
//! A token is one of: a single structural punctuation character
//! (`{ } [ ] : ,`), a quote delimiter (`"`), or a run of literal text
//! (numeric characters, a keyword, or already-escape-decoded string
//! content). The tokenizer never emits an empty token.
//!
//! Each input byte is read as the character with that code. The pass
//! keeps two flags: `in_string`, toggled by an unescaped quote, and
//! `escape`, set by an unescaped backslash inside a string. Whitespace
//! outside a string ends the token in progress and is discarded; an
//! exponent marker directly after a digit, outside a string, ends the
//! numeric token in progress and stands as a token of its own, so `1e10`
//! becomes the three tokens `1`, `e`, `10`.
//!
//! The whole pass is described by the spec functions [`lex_step`] (one
//! character), [`lex_run`] (a sequence of characters) and
//! [`tokenize_spec`] (a whole document); the executable [`tokenize`] is
//! proved to return exactly what [`tokenize_spec`] says.

use vstd::prelude::*;
use vstd::std_specs::iter::IteratorSpec;

verus! {

/// A failure of the tokenizer.
#[derive(Debug, Clone, Copy, PartialEq, Eq, Structural)]
pub enum TokenizeError {
    /// The input ended, or a raw line break or tab appeared, while a
    /// string literal was still open and no escape was pending.
    UnterminatedString,
    /// A backslash was still waiting for its escaped character when the
    /// input ended or whitespace appeared.
    DanglingEscape,
    /// A backslash stood outside a string, or the character after a
    /// backslash is not a recognized escape target.
    InvalidEscapeSequence,
}

/// The character with code `b`: how the tokenizer reads one input byte.
pub open spec fn byte_char(b: u8) -> char {
    b as char
}

/// The characters of an input byte sequence.
pub open spec fn chars_of(bytes: Seq<u8>) -> Seq<char> {
    bytes.map_values(|b: u8| byte_char(b))
}

/// Line whitespace: discarded outside strings, illegal inside them.
pub open spec fn is_line_ws(c: char) -> bool {
    c == '\n' || c == '\r' || c == '\t'
}

/// Structural punctuation: a one-character token outside strings.
pub open spec fn is_structural(c: char) -> bool {
    c == '{' || c == '}' || c == '[' || c == ']' || c == ':' || c == ','
}

/// A decimal digit.
pub open spec fn is_digit(c: char) -> bool {
    '0' <= c && c <= '9'
}

/// A recognized escape target letter.
pub open spec fn is_escape_letter(c: char) -> bool {
    c == 'b' || c == 'f' || c == 'n' || c == 'r' || c == 't'
}

/// The control character an escape target letter stands for.
pub open spec fn escape_decode(c: char) -> char {
    if c == 'b' {
        '\u{0008}'
    } else if c == 'f' {
        '\u{000C}'
    } else if c == 'n' {
        '\n'
    } else if c == 'r' {
        '\r'
    } else {
        '\t'
    }
}

/// The tokenizer's state between two characters: the tokens already
/// emitted, the run in progress, and the two flags.
pub struct LexState {
    pub tokens: Seq<Seq<char>>,
    pub curr: Seq<char>,
    pub in_string: bool,
    pub escape: bool,
}

/// The state before the first character.
pub open spec fn lex_init() -> LexState {
    LexState { tokens: Seq::empty(), curr: Seq::empty(), in_string: false, escape: false }
}

/// Ends the run in progress: a nonempty run becomes a token, an empty
/// one is nothing.
pub open spec fn lex_flush(st: LexState) -> LexState {
    LexState {
        tokens: if st.curr.len() > 0 {
            st.tokens.push(st.curr)
        } else {
            st.tokens
        },
        curr: Seq::empty(),
        ..st
    }
}

/// Appends one character to the run in progress.
pub open spec fn lex_push(st: LexState, c: char) -> LexState {
    LexState { curr: st.curr.push(c), ..st }
}

/// One character of the tokenizer's pass.
pub open spec fn lex_step(st: LexState, c: char) -> Result<LexState, TokenizeError> {
    if is_line_ws(c) {
        if st.escape {
            Err(TokenizeError::DanglingEscape)
        } else if st.in_string {
            Err(TokenizeError::UnterminatedString)
        } else {
            Ok(lex_flush(st))
        }
    } else if c == ' ' {
        if st.escape {
            Err(TokenizeError::DanglingEscape)
        } else if st.in_string {
            Ok(lex_push(st, c))
        } else {
            Ok(lex_flush(st))
        }
    } else if is_structural(c) {
        if st.escape {
            Err(TokenizeError::InvalidEscapeSequence)
        } else if st.in_string {
            Ok(lex_push(st, c))
        } else {
            Ok(LexState { tokens: lex_flush(st).tokens.push(seq![c]), ..lex_flush(st) })
        }
    } else if c == '\\' {
        if !st.in_string {
            Err(TokenizeError::InvalidEscapeSequence)
        } else if st.escape {
            Ok(LexState { escape: false, ..lex_push(st, c) })
        } else {
            Ok(LexState { escape: true, ..st })
        }
    } else if c == '/' {
        // A forward slash may appear escaped or bare and is always
        // appended literally.
        Ok(LexState { escape: false, ..lex_push(st, c) })
    } else if is_escape_letter(c) {
        if st.escape {
            Ok(LexState { escape: false, ..lex_push(st, escape_decode(c)) })
        } else {
            Ok(lex_push(st, c))
        }
    } else if c == 'u' {
        // A unicode escape is passed through without hex decoding.
        Ok(LexState { escape: false, ..lex_push(st, c) })
    } else if c == '"' {
        if st.escape {
            Ok(LexState { escape: false, ..lex_push(st, c) })
        } else {
            Ok(
                LexState {
                    tokens: lex_flush(st).tokens.push(seq![c]),
                    in_string: !st.in_string,
                    ..lex_flush(st)
                },
            )
        }
    } else if c == 'e' || c == 'E' {
        if st.escape {
            Err(TokenizeError::InvalidEscapeSequence)
        } else if st.in_string {
            Ok(lex_push(st, c))
        } else if st.curr.len() > 0 && is_digit(st.curr.last()) {
            // An exponent marker directly after a digit ends the numeric
            // token and stands alone.
            Ok(LexState { tokens: lex_flush(st).tokens.push(seq![c]), ..lex_flush(st) })
        } else {
            Ok(lex_push(st, c))
        }
    } else {
        if st.escape {
            Err(TokenizeError::InvalidEscapeSequence)
        } else {
            Ok(lex_push(st, c))
        }
    }
}

/// The tokenizer's pass over a character sequence, from a given state.
pub open spec fn lex_run(st: LexState, s: Seq<char>) -> Result<LexState, TokenizeError>
    decreases s.len(),
{
    if s.len() == 0 {
        Ok(st)
    } else {
        match lex_run(st, s.drop_last()) {
            Ok(st2) => lex_step(st2, s.last()),
            Err(e) => Err(e),
        }
    }
}

/// The end of the input: a still-pending escape or a still-open string
/// is an error; otherwise the run in progress, if any, becomes the last
/// token.
pub open spec fn lex_finish(st: LexState) -> Result<Seq<Seq<char>>, TokenizeError> {
    if st.escape {
        Err(TokenizeError::DanglingEscape)
    } else if st.in_string {
        Err(TokenizeError::UnterminatedString)
    } else {
        Ok(lex_flush(st).tokens)
    }
}

/// What tokenizing a whole character sequence yields.
pub open spec fn tokenize_spec(s: Seq<char>) -> Result<Seq<Seq<char>>, TokenizeError> {
    match lex_run(lex_init(), s) {
        Ok(st) => lex_finish(st),
        Err(e) => Err(e),
    }
}

/// A pass over `a + b` is the pass over `a` continued over `b`.
pub proof fn lemma_lex_run_concat(st: LexState, a: Seq<char>, b: Seq<char>)
    ensures
        lex_run(st, a + b) == match lex_run(st, a) {
            Ok(m) => lex_run(m, b),
            Err(e) => Err(e),
        },
    decreases b.len(),
{
    if b.len() == 0 {
        assert(a + b =~= a);
    } else {
        lemma_lex_run_concat(st, a, b.drop_last());
        assert((a + b).drop_last() =~= a + b.drop_last());
        assert((a + b).last() == b.last());
    }
}

/// Every token of the list is nonempty.
pub open spec fn tokens_nonempty(ts: Seq<Seq<char>>) -> bool {
    forall|i: int| 0 <= i < ts.len() ==> (#[trigger] ts[i]).len() > 0
}

/// One step keeps every emitted token nonempty: a run becomes a token
/// only when it holds a character, and a structural or quote token is
/// its own one character.
pub proof fn lemma_lex_step_nonempty(st: LexState, c: char)
    requires
        tokens_nonempty(st.tokens),
    ensures
        lex_step(st, c) matches Ok(st2) ==> tokens_nonempty(st2.tokens),
{
    match lex_step(st, c) {
        Ok(st2) => {
            assert forall|i: int| 0 <= i < st2.tokens.len() implies (#[trigger] st2.tokens[i]).len()
                > 0 by {
                if i < st.tokens.len() {
                    assert(st.tokens[i].len() > 0);
                }
            }
        },
        Err(e) => {},
    }
}

/// A whole pass keeps every emitted token nonempty.
pub proof fn lemma_lex_run_nonempty(st: LexState, s: Seq<char>)
    requires
        tokens_nonempty(st.tokens),
    ensures
        lex_run(st, s) matches Ok(st2) ==> tokens_nonempty(st2.tokens),
    decreases s.len(),
{
    if s.len() > 0 {
        lemma_lex_run_nonempty(st, s.drop_last());
        match lex_run(st, s.drop_last()) {
            Ok(st2) => {
                lemma_lex_step_nonempty(st2, s.last());
            },
            Err(e) => {},
        }
    }
}

/// The tokenizer never emits an empty token: every token of a
/// successful pass holds at least one character.
pub proof fn lemma_tokenize_nonempty(s: Seq<char>)
    ensures
        tokenize_spec(s) matches Ok(toks) ==> tokens_nonempty(toks),
{
    lemma_lex_run_nonempty(lex_init(), s);
    match lex_run(lex_init(), s) {
        Ok(st) => {
            match lex_finish(st) {
                Ok(toks) => {
                    assert forall|i: int| 0 <= i < toks.len() implies (#[trigger] toks[i]).len()
                        > 0 by {
                        if i < st.tokens.len() {
                            assert(st.tokens[i].len() > 0);
                        }
                    }
                },
                Err(e) => {},
            }
        },
        Err(e) => {},
    }
}

/// Relies on `core::iter::Iterator::collect`: collecting the characters
/// of a vector yields the string with exactly those characters.
#[verifier::external_body]
pub(crate) fn chars_to_string(v: &Vec<char>) -> (s: String)
    ensures
        s@ == v@,
{
    v.iter().collect()
}

/// The characters of a string, in order, read off its character
/// iterator.
pub(crate) fn string_to_chars(s: &str) -> (v: Vec<char>)
    ensures
        v@ == s@,
{
    let mut v: Vec<char> = Vec::new();
    let mut it = s.chars();
    proof {
        assert(v@ + it.remaining() =~= s@);
    }
    loop
        invariant
            it.obeys_prophetic_iter_laws(),
            it.decrease() is Some,
            v@ + it.remaining() == s@,
        ensures
            v@ == s@,
        decreases it.decrease()->0,
    {
        let ghost pre = it;
        match it.next() {
            Some(c) => {
                v.push(c);
                proof {
                    assert(pre.remaining().len() > 0);
                    assert(v@ + it.remaining() =~= s@);
                }
            },
            None => {
                proof {
                    assert(pre.remaining().len() == 0);
                    assert(v@ =~= s@);
                }
                break ;
            },
        }
    }
    v
}

/// Turns raw bytes into the ordered sequence of the document's lexical
/// tokens, reading each byte as the character with that code; fails on a
/// string still open at the end of input, an escape left waiting for its
/// character, or an escape whose target is not recognized.
pub fn tokenize(bytes: &Vec<u8>) -> (r: Result<Vec<String>, TokenizeError>)
    ensures
        match r {
            Ok(tokens) => tokenize_spec(chars_of(bytes@)) == Ok::<_, TokenizeError>(
                tokens.deep_view(),
            ),
            Err(e) => tokenize_spec(chars_of(bytes@)) == Err::<Seq<Seq<char>>, _>(e),
        },
{
    let ghost all = chars_of(bytes@);
    let mut tokens: Vec<String> = Vec::new();
    let mut curr: Vec<char> = Vec::new();
    let mut in_string = false;
    let mut escape = false;

    let mut i: usize = 0;
    proof {
        assert(all.take(0) =~= Seq::<char>::empty());
        assert(tokens.deep_view() =~~= Seq::<Seq<char>>::empty());
        assert(LexState { tokens: tokens.deep_view(), curr: curr@, in_string, escape }
            == lex_init());
    }
    while i < bytes.len()
        invariant
            i <= bytes.len(),
            all == chars_of(bytes@),
            lex_run(lex_init(), all.take(i as int)) == Ok::<_, TokenizeError>(
                LexState { tokens: tokens.deep_view(), curr: curr@, in_string, escape },
            ),
        decreases bytes.len() - i,
    {
        let ghost pre = LexState { tokens: tokens.deep_view(), curr: curr@, in_string, escape };
        let c = bytes[i] as char;
        proof {
            assert(all.take(i + 1).drop_last() =~= all.take(i as int));
            assert(all.take(i + 1).last() == c);
        }
        let step_err: Option<TokenizeError> = if c == '\n' || c == '\r' || c == '\t' {
            if escape {
                Some(TokenizeError::DanglingEscape)
            } else if in_string {
                Some(TokenizeError::UnterminatedString)
            } else {
                if !curr.is_empty() {
                    tokens.push(chars_to_string(&curr));
                    curr.clear();
                }
                None
            }
        } else if c == ' ' {
            if escape {
                Some(TokenizeError::DanglingEscape)
            } else if in_string {
                curr.push(c);
                None
            } else {
                if !curr.is_empty() {
                    tokens.push(chars_to_string(&curr));
                    curr.clear();
                }
                None
            }
        } else if c == '{' || c == '}' || c == '[' || c == ']' || c == ':' || c == ',' {
            if escape {
                Some(TokenizeError::InvalidEscapeSequence)
            } else if in_string {
                curr.push(c);
                None
            } else {
                if !curr.is_empty() {
                    tokens.push(chars_to_string(&curr));
                    curr.clear();
                }
                let mut single: Vec<char> = Vec::new();
                single.push(c);
                tokens.push(chars_to_string(&single));
                None
            }
        } else if c == '\\' {
            if !in_string {
                Some(TokenizeError::InvalidEscapeSequence)
            } else if escape {
                curr.push(c);
                escape = false;
                None
            } else {
                escape = true;
                None
            }
        } else if c == '/' {
            curr.push(c);
            escape = false;
            None
        } else if c == 'b' || c == 'f' || c == 'n' || c == 'r' || c == 't' {
            if escape {
                let d = if c == 'b' {
                    '\u{0008}'
                } else if c == 'f' {
                    '\u{000C}'
                } else if c == 'n' {
                    '\n'
                } else if c == 'r' {
                    '\r'
                } else {
                    '\t'
                };
                curr.push(d);
                escape = false;
                None
            } else {
                curr.push(c);
                None
            }
        } else if c == 'u' {
            curr.push(c);
            escape = false;
            None
        } else if c == '"' {
            if escape {
                curr.push(c);
                escape = false;
                None
            } else {
                in_string = !in_string;
                if !curr.is_empty() {
                    tokens.push(chars_to_string(&curr));
                    curr.clear();
                }
                let mut single: Vec<char> = Vec::new();
                single.push(c);
                tokens.push(chars_to_string(&single));
                None
            }
        } else if c == 'e' || c == 'E' {
            if escape {
                Some(TokenizeError::InvalidEscapeSequence)
            } else if in_string {
                curr.push(c);
                None
            } else {
                let flush_num = !curr.is_empty() && {
                    let last = curr[curr.len() - 1];
                    '0' <= last && last <= '9'
                };
                if flush_num {
                    tokens.push(chars_to_string(&curr));
                    curr.clear();
                    let mut single: Vec<char> = Vec::new();
                    single.push(c);
                    tokens.push(chars_to_string(&single));
                } else {
                    curr.push(c);
                }
                None
            }
        } else {
            if escape {
                Some(TokenizeError::InvalidEscapeSequence)
            } else {
                curr.push(c);
                None
            }
        };
        match step_err {
            Some(e) => {
                proof {
                    assert(lex_step(pre, c) == Err::<LexState, _>(e));
                    assert(lex_run(lex_init(), all.take(i + 1)) == Err::<LexState, _>(e));
                    assert(all =~= all.take(i + 1) + all.skip(i + 1));
                    lemma_lex_run_concat(lex_init(), all.take(i + 1), all.skip(i + 1));
                }
                return Err(e);
            },
            None => {
                proof {
                    let post = LexState {
                        tokens: tokens.deep_view(),
                        curr: curr@,
                        in_string,
                        escape,
                    };
                    assert(lex_step(pre, c) is Ok);
                    let want = lex_step(pre, c)->Ok_0;
                    assert(post.tokens =~~= want.tokens);
                    assert(post.curr =~= want.curr);
                    assert(post == want);
                }
            },
        }
        i = i + 1;
    }
    proof {
        assert(all.take(bytes@.len() as int) =~= all);
    }
    if escape {
        return Err(TokenizeError::DanglingEscape);
    }
    if in_string {
        return Err(TokenizeError::UnterminatedString);
    }
    if !curr.is_empty() {
        tokens.push(chars_to_string(&curr));
        let ghost post = tokens.deep_view();
        proof {
            assert(post =~~= lex_finish(lex_run(lex_init(), all)->Ok_0)->Ok_0);
        }
    }
    proof {
        assert(tokens.deep_view() =~~= lex_finish(lex_run(lex_init(), all)->Ok_0)->Ok_0);
    }
    Ok(tokens)
}

} // verus!
