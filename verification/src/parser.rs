//! The parser: recursive descent over the token sequence, one procedure
//! per JSON grammar production, driven by a cursor that only moves
//! forward.
//!
//! The whole descent is described by the spec functions
//! [`parse_value_spec`], [`parse_object_spec`], [`parse_members_spec`],
//! [`parse_array_spec`], [`parse_elements_spec`], [`parse_string_spec`]
//! and [`parse_number_spec`]; each executable procedure is proved to
//! return exactly what its spec function says, including which error
//! comes on which input. A failure is fatal for the whole parse: no
//! partial tree is returned.
//!
//! Numbers are kept as their source text, checked against the number
//! grammar (an optional sign, an integer digit run, an optional
//! fraction, an optional exponent); the text of one number may span
//! several tokens, since the tokenizer ends a numeric token at an
//! exponent marker.

use vstd::pervasive::VecAdditionalExecFns;
use vstd::prelude::*;
use vstd::string::StringExecFns;

use crate::token::{chars_of, chars_to_string, is_digit, string_to_chars, tokenize, tokenize_spec, TokenizeError};
use crate::value::{
    jv_model, jv_model_elems, jv_model_pairs, lemma_model_elems, lemma_model_pairs, Json,
    JsonValue,
};

verus! {

/// A failure of the parser.
#[derive(Debug, Clone, Copy, PartialEq, Eq, Structural)]
pub enum ParseError {
    /// A token that no grammar production allows at its position.
    UnexpectedToken,
    /// The tokens ended in the middle of a production.
    UnexpectedEndOfInput,
    /// Text in number position that the number grammar refuses.
    MalformedNumber,
}

/// A failure of the whole byte-to-tree operation: either the tokenizer
/// or the parser refused.
#[derive(Debug, Clone, Copy, PartialEq, Eq, Structural)]
pub enum JsonError {
    Tokenize(TokenizeError),
    Parse(ParseError),
}

/// A sign character.
pub open spec fn is_sign(c: char) -> bool {
    c == '+' || c == '-'
}

/// The states of the number-grammar recognizer.
#[derive(Debug, Clone, Copy, PartialEq, Eq, Structural)]
pub enum NumState {
    /// Nothing read: a sign or a first digit may come.
    Start,
    /// A sign read: a first digit must come.
    AfterSign,
    /// Inside the integer digit run.
    IntDigits,
    /// A decimal point read: a fraction digit must come.
    AfterPoint,
    /// Inside the fraction digit run.
    FracDigits,
    /// An exponent marker read: a sign or an exponent digit may come.
    AfterMarker,
    /// An exponent sign read: an exponent digit must come.
    AfterExpSign,
    /// Inside the exponent digit run.
    ExpDigits,
    /// A character outside the grammar was read.
    Reject,
}

/// One character of the number-grammar recognizer.
pub open spec fn num_step(st: NumState, c: char) -> NumState {
    match st {
        NumState::Start => if is_sign(c) {
            NumState::AfterSign
        } else if is_digit(c) {
            NumState::IntDigits
        } else {
            NumState::Reject
        },
        NumState::AfterSign => if is_digit(c) {
            NumState::IntDigits
        } else {
            NumState::Reject
        },
        NumState::IntDigits => if is_digit(c) {
            NumState::IntDigits
        } else if c == '.' {
            NumState::AfterPoint
        } else if c == 'e' || c == 'E' {
            NumState::AfterMarker
        } else {
            NumState::Reject
        },
        NumState::AfterPoint => if is_digit(c) {
            NumState::FracDigits
        } else {
            NumState::Reject
        },
        NumState::FracDigits => if is_digit(c) {
            NumState::FracDigits
        } else if c == 'e' || c == 'E' {
            NumState::AfterMarker
        } else {
            NumState::Reject
        },
        NumState::AfterMarker => if is_sign(c) {
            NumState::AfterExpSign
        } else if is_digit(c) {
            NumState::ExpDigits
        } else {
            NumState::Reject
        },
        NumState::AfterExpSign => if is_digit(c) {
            NumState::ExpDigits
        } else {
            NumState::Reject
        },
        NumState::ExpDigits => if is_digit(c) {
            NumState::ExpDigits
        } else {
            NumState::Reject
        },
        NumState::Reject => NumState::Reject,
    }
}

/// The recognizer run over a character sequence.
pub open spec fn num_run(st: NumState, s: Seq<char>) -> NumState
    decreases s.len(),
{
    if s.len() == 0 {
        st
    } else {
        num_step(num_run(st, s.drop_last()), s.last())
    }
}

/// The accepting states: a complete digit run has just ended.
pub open spec fn num_accept(st: NumState) -> bool {
    st == NumState::IntDigits || st == NumState::FracDigits || st == NumState::ExpDigits
}

/// Whether `s` is a well-formed number text: an optional sign, an
/// integer digit run, an optional point-prefixed fraction run, an
/// optional exponent (marker, optional sign, digit run).
pub open spec fn is_number_text(s: Seq<char>) -> bool {
    num_accept(num_run(NumState::Start, s))
}

/// Moves a returned cursor past a known position; the parser's cursor
/// only moves forward, so this never changes a cursor that a parse
/// procedure actually returned (see [`lemma_parse_value_advances`]).
pub open spec fn bump(c_new: int, base: int) -> int {
    if c_new > base {
        c_new
    } else {
        base + 1
    }
}

/// What parsing a string body yields, the cursor standing just past the
/// opening quote token: the literal-run token between two quote tokens,
/// or the empty string for back-to-back quote tokens. A run token not
/// followed by a quote token yields the empty string with only the run
/// consumed — a token shape the tokenizer itself never produces.
pub open spec fn parse_string_spec(toks: Seq<Seq<char>>, c: int) -> Result<
    (Seq<char>, int),
    ParseError,
> {
    if c < 0 || c >= toks.len() {
        Err(ParseError::UnexpectedEndOfInput)
    } else if c + 1 < toks.len() && toks[c + 1] == "\""@ {
        Ok((toks[c], c + 2))
    } else if toks[c] == "\""@ {
        Ok((Seq::empty(), c + 1))
    } else if c + 1 >= toks.len() {
        Err(ParseError::UnexpectedEndOfInput)
    } else {
        Ok((Seq::empty(), c + 1))
    }
}

/// What parsing a number yields: an optional standalone sign token, a
/// mandatory run token, and, if an exponent marker token follows, the
/// marker and the run after it; the texts joined must satisfy the number
/// grammar.
pub open spec fn parse_number_spec(toks: Seq<Seq<char>>, c: int) -> Result<
    (Seq<char>, int),
    ParseError,
> {
    if c < 0 || c >= toks.len() {
        Err(ParseError::UnexpectedEndOfInput)
    } else {
        let has_sign = toks[c] == "-"@ || toks[c] == "+"@;
        if has_sign && c + 1 >= toks.len() {
            Err(ParseError::UnexpectedEndOfInput)
        } else {
            let head = if has_sign {
                toks[c] + toks[c + 1]
            } else {
                toks[c]
            };
            let cm = if has_sign {
                c + 2
            } else {
                c + 1
            };
            if cm < toks.len() && (toks[cm] == "e"@ || toks[cm] == "E"@) {
                let text = if cm + 1 < toks.len() {
                    head + toks[cm] + toks[cm + 1]
                } else {
                    head + toks[cm]
                };
                let cend = if cm + 1 < toks.len() {
                    cm + 2
                } else {
                    cm + 1
                };
                if is_number_text(text) {
                    Ok((text, cend))
                } else {
                    Err(ParseError::MalformedNumber)
                }
            } else {
                if is_number_text(head) {
                    Ok((head, cm))
                } else {
                    Err(ParseError::MalformedNumber)
                }
            }
        }
    }
}

/// The first position in `acc` holding key `k`, or `-1`.
pub open spec fn find_key(acc: Seq<(Seq<char>, Json)>, k: Seq<char>) -> int
    decreases acc.len(),
{
    if acc.len() == 0 {
        -1
    } else if acc[0].0 == k {
        0
    } else {
        let r = find_key(acc.drop_first(), k);
        if r == -1 {
            -1
        } else {
            r + 1
        }
    }
}

/// Writes `k: v` into a pair list: over the entry already holding `k` if
/// one does, else appended — last write wins.
pub open spec fn upsert(acc: Seq<(Seq<char>, Json)>, k: Seq<char>, v: Json) -> Seq<
    (Seq<char>, Json),
> {
    let i = find_key(acc, k);
    if i == -1 {
        acc.push((k, v))
    } else {
        acc.update(i, (k, v))
    }
}

/// Writes each pair of `s` into `acc` in order, last write winning.
pub open spec fn dedup_from(acc: Seq<(Seq<char>, Json)>, s: Seq<(Seq<char>, Json)>) -> Seq<
    (Seq<char>, Json),
>
    decreases s.len(),
{
    if s.len() == 0 {
        acc
    } else {
        dedup_from(upsert(acc, s[0].0, s[0].1), s.drop_first())
    }
}

/// The pair list with duplicate keys resolved last-write-wins.
pub open spec fn dedup_keys(s: Seq<(Seq<char>, Json)>) -> Seq<(Seq<char>, Json)> {
    dedup_from(Seq::empty(), s)
}

/// What parsing a value yields, dispatching on the token at the cursor:
/// an object, an array, a string, a keyword, or else a number.
pub open spec fn parse_value_spec(toks: Seq<Seq<char>>, c: int) -> Result<(Json, int), ParseError>
    decreases toks.len() - c, 1int,
{
    if c < 0 || c >= toks.len() {
        Err(ParseError::UnexpectedEndOfInput)
    } else {
        let t = toks[c];
        if t == "{"@ {
            parse_object_spec(toks, c + 1)
        } else if t == "["@ {
            parse_array_spec(toks, c + 1)
        } else if t == "\""@ {
            match parse_string_spec(toks, c + 1) {
                Ok((s, c2)) => Ok((Json::Str(s), c2)),
                Err(e) => Err(e),
            }
        } else if t == "true"@ {
            Ok((Json::Bool(true), c + 1))
        } else if t == "false"@ {
            Ok((Json::Bool(false), c + 1))
        } else if t == "null"@ {
            Ok((Json::Null, c + 1))
        } else {
            match parse_number_spec(toks, c) {
                Ok((text, c2)) => Ok((Json::Num(text), c2)),
                Err(e) => Err(e),
            }
        }
    }
}

/// What parsing an object yields, the cursor standing just past `{`.
pub open spec fn parse_object_spec(toks: Seq<Seq<char>>, c: int) -> Result<(Json, int), ParseError>
    decreases toks.len() - c, 3int,
{
    match parse_members_spec(toks, c) {
        Ok((pairs, c2)) => Ok((Json::Obj(dedup_keys(pairs)), c2)),
        Err(e) => Err(e),
    }
}

/// What parsing an object's members yields, the cursor standing just
/// past `{` or past a separating comma: `"key" : value` entries, in
/// source order with duplicates kept, until `}`.
pub open spec fn parse_members_spec(toks: Seq<Seq<char>>, c: int) -> Result<
    (Seq<(Seq<char>, Json)>, int),
    ParseError,
>
    decreases toks.len() - c, 2int,
{
    if c < 0 || c >= toks.len() {
        Err(ParseError::UnexpectedEndOfInput)
    } else if toks[c] == "}"@ {
        Ok((Seq::empty(), c + 1))
    } else if toks[c] == "\""@ {
        match parse_string_spec(toks, c + 1) {
            Ok((key, ck0)) => {
                let ck = bump(ck0, c);
                if ck >= toks.len() {
                    Err(ParseError::UnexpectedEndOfInput)
                } else if toks[ck] != ":"@ {
                    Err(ParseError::UnexpectedToken)
                } else {
                    match parse_value_spec(toks, ck + 1) {
                        Ok((val, cv0)) => {
                            let cv = bump(cv0, ck + 1);
                            if cv >= toks.len() {
                                Err(ParseError::UnexpectedEndOfInput)
                            } else if toks[cv] == ","@ {
                                match parse_members_spec(toks, cv + 1) {
                                    Ok((rest, ce)) => Ok((seq![(key, val)] + rest, ce)),
                                    Err(e) => Err(e),
                                }
                            } else if toks[cv] == "}"@ {
                                Ok((seq![(key, val)], cv + 1))
                            } else {
                                Err(ParseError::UnexpectedToken)
                            }
                        },
                        Err(e) => Err(e),
                    }
                }
            },
            Err(e) => Err(e),
        }
    } else {
        Err(ParseError::UnexpectedToken)
    }
}

/// What parsing an array yields, the cursor standing just past `[`.
pub open spec fn parse_array_spec(toks: Seq<Seq<char>>, c: int) -> Result<(Json, int), ParseError>
    decreases toks.len() - c, 3int,
{
    match parse_elements_spec(toks, c) {
        Ok((elems, c2)) => Ok((Json::Arr(elems), c2)),
        Err(e) => Err(e),
    }
}

/// What parsing an array's elements yields, the cursor standing just
/// past `[` or past a separating comma: comma-separated values until
/// `]`.
pub open spec fn parse_elements_spec(toks: Seq<Seq<char>>, c: int) -> Result<
    (Seq<Json>, int),
    ParseError,
>
    decreases toks.len() - c, 2int,
{
    if c < 0 || c >= toks.len() {
        Err(ParseError::UnexpectedEndOfInput)
    } else if toks[c] == "]"@ {
        Ok((Seq::empty(), c + 1))
    } else {
        match parse_value_spec(toks, c) {
            Ok((v, cv0)) => {
                let cv = bump(cv0, c);
                if cv >= toks.len() {
                    Err(ParseError::UnexpectedEndOfInput)
                } else if toks[cv] == ","@ {
                    match parse_elements_spec(toks, cv + 1) {
                        Ok((rest, ce)) => Ok((seq![v] + rest, ce)),
                        Err(e) => Err(e),
                    }
                } else if toks[cv] == "]"@ {
                    Ok((seq![v], cv + 1))
                } else {
                    Err(ParseError::UnexpectedToken)
                }
            },
            Err(e) => Err(e),
        }
    }
}

/// What parsing a whole document yields: tokens, then one value from the
/// front; tokens after the first value are left unread.
pub open spec fn parse_json_spec(s: Seq<char>) -> Result<Json, JsonError> {
    match tokenize_spec(s) {
        Ok(toks) => match parse_value_spec(toks, 0) {
            Ok((v, _)) => Ok(v),
            Err(e) => Err(JsonError::Parse(e)),
        },
        Err(e) => Err(JsonError::Tokenize(e)),
    }
}

/// A successful parse moves the cursor strictly forward and never past
/// the end of the tokens.
pub proof fn lemma_parse_value_advances(toks: Seq<Seq<char>>, c: int)
    ensures
        parse_value_spec(toks, c) matches Ok((v, c2)) ==> c < c2 <= toks.len(),
    decreases toks.len() - c, 1int,
{
    if 0 <= c < toks.len() {
        let t = toks[c];
        if t == "{"@ {
            lemma_parse_object_advances(toks, c + 1);
        } else if t == "["@ {
            lemma_parse_array_advances(toks, c + 1);
        }
    }
}

/// A successful object parse moves the cursor strictly forward and never
/// past the end of the tokens.
pub proof fn lemma_parse_object_advances(toks: Seq<Seq<char>>, c: int)
    ensures
        parse_object_spec(toks, c) matches Ok((v, c2)) ==> c < c2 <= toks.len(),
    decreases toks.len() - c, 3int,
{
    lemma_parse_members_advances(toks, c);
}

/// A successful member-list parse moves the cursor strictly forward and
/// never past the end of the tokens.
pub proof fn lemma_parse_members_advances(toks: Seq<Seq<char>>, c: int)
    ensures
        parse_members_spec(toks, c) matches Ok((pairs, c2)) ==> c < c2 <= toks.len(),
    decreases toks.len() - c, 2int,
{
    if 0 <= c < toks.len() && toks[c] != "}"@ && toks[c] == "\""@ {
        match parse_string_spec(toks, c + 1) {
            Ok((key, ck0)) => {
                let ck = bump(ck0, c);
                if ck < toks.len() && toks[ck] == ":"@ {
                    lemma_parse_value_advances(toks, ck + 1);
                    match parse_value_spec(toks, ck + 1) {
                        Ok((val, cv0)) => {
                            let cv = bump(cv0, ck + 1);
                            if cv < toks.len() && toks[cv] == ","@ {
                                lemma_parse_members_advances(toks, cv + 1);
                            }
                        },
                        Err(e) => {},
                    }
                }
            },
            Err(e) => {},
        }
    }
}

/// Whether a token's text equals a literal's.
fn tok_eq(t: &String, lit: &str) -> (r: bool)
    ensures
        r == (t@ == lit@),
{
    let s: String = String::from_str(lit);
    *t == s
}

/// Runs the number-grammar recognizer over a text.
fn check_number(text: &Vec<char>) -> (r: bool)
    ensures
        r == is_number_text(text@),
{
    let mut st = NumState::Start;
    let mut i: usize = 0;
    proof {
        assert(text@.take(0) =~= Seq::<char>::empty());
    }
    while i < text.len()
        invariant
            i <= text.len(),
            st == num_run(NumState::Start, text@.take(i as int)),
        decreases text.len() - i,
    {
        let c = text[i];
        proof {
            assert(text@.take(i + 1).drop_last() =~= text@.take(i as int));
            assert(text@.take(i + 1).last() == c);
        }
        let sign = c == '+' || c == '-';
        let digit = '0' <= c && c <= '9';
        st = match st {
            NumState::Start => if sign {
                NumState::AfterSign
            } else if digit {
                NumState::IntDigits
            } else {
                NumState::Reject
            },
            NumState::AfterSign => if digit {
                NumState::IntDigits
            } else {
                NumState::Reject
            },
            NumState::IntDigits => if digit {
                NumState::IntDigits
            } else if c == '.' {
                NumState::AfterPoint
            } else if c == 'e' || c == 'E' {
                NumState::AfterMarker
            } else {
                NumState::Reject
            },
            NumState::AfterPoint => if digit {
                NumState::FracDigits
            } else {
                NumState::Reject
            },
            NumState::FracDigits => if digit {
                NumState::FracDigits
            } else if c == 'e' || c == 'E' {
                NumState::AfterMarker
            } else {
                NumState::Reject
            },
            NumState::AfterMarker => if sign {
                NumState::AfterExpSign
            } else if digit {
                NumState::ExpDigits
            } else {
                NumState::Reject
            },
            NumState::AfterExpSign => if digit {
                NumState::ExpDigits
            } else {
                NumState::Reject
            },
            NumState::ExpDigits => if digit {
                NumState::ExpDigits
            } else {
                NumState::Reject
            },
            NumState::Reject => NumState::Reject,
        };
        i = i + 1;
    }
    proof {
        assert(text@.take(text@.len() as int) =~= text@);
    }
    match st {
        NumState::IntDigits => true,
        NumState::FracDigits => true,
        NumState::ExpDigits => true,
        _ => false,
    }
}

/// Consumes the literal-run token, if any, between two quote-delimiter
/// tokens, the cursor standing just past the opening quote; back-to-back
/// quote tokens denote an empty string. The content needs no further
/// decoding: the tokenizer already resolved every escape.
pub fn parse_string(tokens: &Vec<String>, cursor: &mut usize) -> (r: Result<String, ParseError>)
    ensures
        match r {
            Ok(s) => parse_string_spec(tokens.deep_view(), *old(cursor) as int) == Ok::<
                _,
                ParseError,
            >((s@, *final(cursor) as int)),
            Err(e) => parse_string_spec(tokens.deep_view(), *old(cursor) as int) == Err::<
                (Seq<char>, int),
                _,
            >(e),
        },
{
    let c0: usize = *cursor;
    let n: usize = tokens.len();
    proof {
        assert(tokens.deep_view().len() == tokens@.len());
        assert(forall|j: int|
            0 <= j < tokens@.len() ==> #[trigger] tokens.deep_view()[j] == tokens@[j]@);
    }
    if c0 >= n {
        return Err(ParseError::UnexpectedEndOfInput);
    }
    if c0 + 1 < n && tok_eq(&tokens[c0 + 1], "\"") {
        *cursor = c0 + 2;
        Ok(tokens[c0].clone())
    } else if tok_eq(&tokens[c0], "\"") {
        *cursor = c0 + 1;
        Ok(String::new())
    } else if c0 + 1 >= n {
        Err(ParseError::UnexpectedEndOfInput)
    } else {
        *cursor = c0 + 1;
        Ok(String::new())
    }
}

/// Consumes a number's tokens — an optional standalone sign, the run,
/// and an exponent marker with its run where one follows — checks the
/// joined text against the number grammar, and yields the text as a
/// number node.
pub fn parse_number(tokens: &Vec<String>, cursor: &mut usize) -> (r: Result<JsonValue, ParseError>)
    ensures
        match r {
            Ok(v) => parse_number_spec(tokens.deep_view(), *old(cursor) as int) matches Ok(
                (text, c2),
            ) && v@ == Json::Num(text) && *final(cursor) as int == c2,
            Err(e) => parse_number_spec(tokens.deep_view(), *old(cursor) as int) == Err::<
                (Seq<char>, int),
                _,
            >(e),
        },
{
    let ghost td = tokens.deep_view();
    let c0: usize = *cursor;
    let n: usize = tokens.len();
    proof {
        assert(td.len() == tokens@.len());
        assert(forall|j: int| 0 <= j < tokens@.len() ==> #[trigger] td[j] == tokens@[j]@);
    }
    if c0 >= n {
        return Err(ParseError::UnexpectedEndOfInput);
    }
    let has_sign = tok_eq(&tokens[c0], "-") || tok_eq(&tokens[c0], "+");
    if has_sign && c0 + 1 >= n {
        return Err(ParseError::UnexpectedEndOfInput);
    }
    let mut text: Vec<char> = Vec::new();
    let cm: usize = if has_sign {
        let mut t0 = string_to_chars(tokens[c0].as_str());
        text.append(&mut t0);
        let mut t1 = string_to_chars(tokens[c0 + 1].as_str());
        text.append(&mut t1);
        c0 + 2
    } else {
        let mut t0 = string_to_chars(tokens[c0].as_str());
        text.append(&mut t0);
        c0 + 1
    };
    let ghost head = if has_sign {
        td[c0 as int] + td[c0 + 1]
    } else {
        td[c0 as int]
    };
    proof {
        assert(text@ =~= head);
    }
    let cend: usize = if cm < n && (tok_eq(&tokens[cm], "e") || tok_eq(&tokens[cm], "E")) {
        let mut tm = string_to_chars(tokens[cm].as_str());
        text.append(&mut tm);
        if cm + 1 < n {
            let mut te = string_to_chars(tokens[cm + 1].as_str());
            text.append(&mut te);
            proof {
                assert(text@ =~= head + td[cm as int] + td[cm + 1]);
            }
            cm + 2
        } else {
            proof {
                assert(text@ =~= head + td[cm as int]);
            }
            cm + 1
        }
    } else {
        cm
    };
    if check_number(&text) {
        *cursor = cend;
        let s = chars_to_string(&text);
        Ok(JsonValue::Num(s))
    } else {
        Err(ParseError::MalformedNumber)
    }
}

/// A successful array parse moves the cursor strictly forward and never
/// past the end of the tokens.
pub proof fn lemma_parse_array_advances(toks: Seq<Seq<char>>, c: int)
    ensures
        parse_array_spec(toks, c) matches Ok((v, c2)) ==> c < c2 <= toks.len(),
    decreases toks.len() - c, 3int,
{
    lemma_parse_elements_advances(toks, c);
}

/// A successful element-list parse moves the cursor strictly forward and
/// never past the end of the tokens.
pub proof fn lemma_parse_elements_advances(toks: Seq<Seq<char>>, c: int)
    ensures
        parse_elements_spec(toks, c) matches Ok((elems, c2)) ==> c < c2 <= toks.len(),
    decreases toks.len() - c, 2int,
{
    if 0 <= c < toks.len() && toks[c] != "]"@ {
        lemma_parse_value_advances(toks, c);
        match parse_value_spec(toks, c) {
            Ok((v, cv0)) => {
                let cv = bump(cv0, c);
                if cv < toks.len() && toks[cv] == ","@ {
                    lemma_parse_elements_advances(toks, cv + 1);
                }
            },
            Err(e) => {},
        }
    }
}

/// Where `find_key` points: the first entry holding the key, after no
/// earlier one; `-1` exactly when no entry holds it.
pub proof fn lemma_find_key_props(acc: Seq<(Seq<char>, Json)>, k: Seq<char>)
    ensures
        find_key(acc, k) == -1 ==> forall|i: int| 0 <= i < acc.len() ==> (#[trigger] acc[i]).0
            != k,
        find_key(acc, k) != -1 ==> 0 <= find_key(acc, k) < acc.len() && acc[find_key(acc, k)].0
            == k && forall|i: int| 0 <= i < find_key(acc, k) ==> (#[trigger] acc[i]).0 != k,
    decreases acc.len(),
{
    if acc.len() == 0 {
    } else if acc[0].0 == k {
        assert(find_key(acc, k) == 0);
    } else {
        let d = acc.drop_first();
        lemma_find_key_props(d, k);
        assert(forall|i: int| 0 <= i < d.len() ==> #[trigger] d[i] == acc[i + 1]);
        let r = find_key(d, k);
        if r == -1 {
            assert(find_key(acc, k) == -1);
            assert forall|i: int| 0 <= i < acc.len() implies (#[trigger] acc[i]).0 != k by {
                if i > 0 {
                    assert(acc[i] == d[i - 1]);
                }
            }
        } else {
            assert(find_key(acc, k) == r + 1);
            assert(acc[r + 1] == d[r]);
            assert forall|i: int| 0 <= i < r + 1 implies (#[trigger] acc[i]).0 != k by {
                if i > 0 {
                    assert(acc[i] == d[i - 1]);
                }
            }
        }
    }
}

/// Writing the pairs of `s` and then one more is writing the pairs of
/// `s.push(p)`.
pub proof fn lemma_dedup_push(
    acc: Seq<(Seq<char>, Json)>,
    s: Seq<(Seq<char>, Json)>,
    p: (Seq<char>, Json),
)
    ensures
        dedup_from(acc, s.push(p)) == upsert(dedup_from(acc, s), p.0, p.1),
    decreases s.len(),
{
    let sp = s.push(p);
    assert(sp.len() == s.len() + 1);
    if s.len() == 0 {
        assert(sp[0] == p);
        assert(sp.drop_first() =~= Seq::<(Seq<char>, Json)>::empty());
        assert(dedup_from(acc, sp) == dedup_from(upsert(acc, p.0, p.1), sp.drop_first()));
        assert(dedup_from(upsert(acc, p.0, p.1), sp.drop_first()) == upsert(acc, p.0, p.1));
        assert(dedup_from(acc, s) == acc);
    } else {
        assert(sp[0] == s[0]);
        assert(sp.drop_first() =~= s.drop_first().push(p));
        let acc2 = upsert(acc, s[0].0, s[0].1);
        assert(dedup_from(acc, sp) == dedup_from(acc2, sp.drop_first()));
        lemma_dedup_push(acc2, s.drop_first(), p);
        assert(dedup_from(acc2, s.drop_first().push(p)) == upsert(
            dedup_from(acc2, s.drop_first()),
            p.0,
            p.1,
        ));
        assert(dedup_from(acc, s) == dedup_from(acc2, s.drop_first()));
    }
}

/// Writes `key: val` into the pair list, over the entry already holding
/// the key if one does, else at the end — last write wins.
fn insert_pair(pairs: &mut Vec<(String, JsonValue)>, key: String, val: JsonValue)
    ensures
        jv_model_pairs(final(pairs)@) == upsert(
            jv_model_pairs(old(pairs)@),
            key@,
            jv_model(val),
        ),
{
    let ghost m0 = jv_model_pairs(pairs@);
    proof {
        lemma_model_pairs(pairs@);
        lemma_find_key_props(m0, key@);
    }
    let n: usize = pairs.len();
    let mut j: usize = 0;
    while j < n
        invariant
            j <= n,
            n == pairs@.len(),
            pairs@ == old(pairs)@,
            m0 == jv_model_pairs(pairs@),
            m0.len() == n,
            forall|i: int| 0 <= i < n ==> #[trigger] m0[i] == (pairs@[i].0@, jv_model(pairs@[i].1)),
            forall|i: int| 0 <= i < j ==> (#[trigger] m0[i]).0 != key@,
        decreases n - j,
    {
        let hit = pairs[j].0 == key;
        if hit {
            proof {
                lemma_find_key_props(m0, key@);
                assert(m0[j as int].0 == key@);
                let fk = find_key(m0, key@);
                if fk == -1 {
                    assert((m0[j as int]).0 != key@);
                } else if fk < j {
                    assert((m0[fk]).0 != key@);
                } else if fk > j {
                    assert((m0[j as int]).0 != key@);
                }
                assert(find_key(m0, key@) == j);
            }
            pairs.set(j, (key, val));
            proof {
                lemma_model_pairs(pairs@);
                assert(jv_model_pairs(pairs@) =~= m0.update(j as int, (key@, jv_model(val))));
            }
            return ;
        }
        j = j + 1;
    }
    proof {
        lemma_find_key_props(m0, key@);
        assert(find_key(m0, key@) == -1) by {
            if find_key(m0, key@) != -1 {
                assert(m0[find_key(m0, key@)].0 == key@);
            }
        }
    }
    pairs.push((key, val));
    proof {
        lemma_model_pairs(pairs@);
        assert(jv_model_pairs(pairs@) =~= m0.push((key@, jv_model(val))));
    }
}

/// Reads `"key" : value` entries separated by commas until `}`, the
/// cursor standing just past `{`; `{}` is valid; a separator that is
/// neither `,` nor `}` is fatal; a repeated key overwrites its earlier
/// value.
pub fn parse_object(tokens: &Vec<String>, cursor: &mut usize) -> (r: Result<JsonValue, ParseError>)
    requires
        *old(cursor) <= tokens@.len(),
    ensures
        match r {
            Ok(v) => parse_object_spec(tokens.deep_view(), *old(cursor) as int) == Ok::<
                _,
                ParseError,
            >((v@, *final(cursor) as int)) && *old(cursor) < *final(cursor) <= tokens@.len(),
            Err(e) => parse_object_spec(tokens.deep_view(), *old(cursor) as int) == Err::<
                (Json, int),
                _,
            >(e),
        },
    decreases tokens@.len() - *old(cursor), 3int,
{
    let ghost td = tokens.deep_view();
    let ghost c_in = *cursor as int;
    let n: usize = tokens.len();
    proof {
        assert(td.len() == tokens@.len());
        assert(forall|j: int| 0 <= j < tokens@.len() ==> #[trigger] td[j] == tokens@[j]@);
    }
    let mut pairs: Vec<(String, JsonValue)> = Vec::new();
    let ghost raw = Seq::<(Seq<char>, Json)>::empty();
    proof {
        assert(jv_model_pairs(pairs@) =~= dedup_from(Seq::empty(), raw));
    }
    loop
        invariant
            n == tokens@.len(),
            td == tokens.deep_view(),
            td.len() == tokens@.len(),
            forall|j: int| 0 <= j < tokens@.len() ==> #[trigger] td[j] == tokens@[j]@,
            c_in == *old(cursor) as int,
            c_in <= *cursor <= n,
            parse_members_spec(td, c_in) == (match parse_members_spec(td, *cursor as int) {
                Ok((rest, ce)) => Ok::<_, ParseError>((raw + rest, ce)),
                Err(e) => Err(e),
            }),
            jv_model_pairs(pairs@) == dedup_from(Seq::empty(), raw),
        decreases n - *cursor,
    {
        let cur: usize = *cursor;
        if cur >= n {
            return Err(ParseError::UnexpectedEndOfInput);
        }
        if tok_eq(&tokens[cur], "}") {
            *cursor = cur + 1;
            proof {
                assert(raw + Seq::<(Seq<char>, Json)>::empty() =~= raw);
            }
            return Ok(JsonValue::Obj(pairs));
        }
        if !tok_eq(&tokens[cur], "\"") {
            return Err(ParseError::UnexpectedToken);
        }
        *cursor = cur + 1;
        let key = match parse_string(tokens, cursor) {
            Ok(k) => k,
            Err(e) => {
                return Err(e);
            },
        };
        let ghost ck0 = *cursor as int;
        proof {
            assert(bump(ck0, cur as int) == ck0);
        }
        let ck: usize = *cursor;
        if ck >= n {
            return Err(ParseError::UnexpectedEndOfInput);
        }
        if !tok_eq(&tokens[ck], ":") {
            return Err(ParseError::UnexpectedToken);
        }
        *cursor = ck + 1;
        let val = match parse_value(tokens, cursor) {
            Ok(v) => v,
            Err(e) => {
                return Err(e);
            },
        };
        let ghost cv0 = *cursor as int;
        proof {
            assert(bump(cv0, ck + 1) == cv0);
        }
        let ghost entry = (key@, jv_model(val));
        let cv: usize = *cursor;
        if cv >= n {
            return Err(ParseError::UnexpectedEndOfInput);
        }
        let comma = tok_eq(&tokens[cv], ",");
        let closing = if comma {
            false
        } else {
            tok_eq(&tokens[cv], "}")
        };
        if !comma && !closing {
            return Err(ParseError::UnexpectedToken);
        }
        insert_pair(&mut pairs, key, val);
        let ghost raw_old = raw;
        let ghost raw2 = raw_old.push(entry);
        proof {
            lemma_dedup_push(Seq::empty(), raw_old, entry);
            raw = raw2;
        }
        *cursor = cv + 1;
        if closing {
            proof {
                assert(parse_members_spec(td, cur as int) == Ok::<_, ParseError>(
                    (seq![entry], cv + 1),
                ));
                assert(raw_old + seq![entry] =~= raw2);
                assert(parse_members_spec(td, c_in) == Ok::<_, ParseError>((raw2, cv + 1)));
            }
            return Ok(JsonValue::Obj(pairs));
        }
        proof {
            match parse_members_spec(td, cv + 1) {
                Ok(pr) => {
                    assert(parse_members_spec(td, cur as int) == Ok::<_, ParseError>(
                        (seq![entry] + pr.0, pr.1),
                    ));
                    assert(raw_old + (seq![entry] + pr.0) =~= raw2 + pr.0);
                    assert(parse_members_spec(td, c_in) == Ok::<_, ParseError>(
                        (raw2 + pr.0, pr.1),
                    ));
                },
                Err(e) => {
                    assert(parse_members_spec(td, cur as int) == Err::<
                        (Seq<(Seq<char>, Json)>, int),
                        _,
                    >(e));
                },
            }
        }
    }
}

/// Reads comma-separated values until `]`, the cursor standing just
/// past `[`; `[]` is valid; a separator that is neither `,` nor `]` is
/// fatal.
pub fn parse_array(tokens: &Vec<String>, cursor: &mut usize) -> (r: Result<JsonValue, ParseError>)
    requires
        *old(cursor) <= tokens@.len(),
    ensures
        match r {
            Ok(v) => parse_array_spec(tokens.deep_view(), *old(cursor) as int) == Ok::<
                _,
                ParseError,
            >((v@, *final(cursor) as int)) && *old(cursor) < *final(cursor) <= tokens@.len(),
            Err(e) => parse_array_spec(tokens.deep_view(), *old(cursor) as int) == Err::<
                (Json, int),
                _,
            >(e),
        },
    decreases tokens@.len() - *old(cursor), 2int,
{
    let ghost td = tokens.deep_view();
    let ghost c_in = *cursor as int;
    let n: usize = tokens.len();
    proof {
        assert(td.len() == tokens@.len());
        assert(forall|j: int| 0 <= j < tokens@.len() ==> #[trigger] td[j] == tokens@[j]@);
    }
    let mut elems: Vec<JsonValue> = Vec::new();
    let ghost got = Seq::<Json>::empty();
    proof {
        assert(jv_model_elems(elems@) =~= got);
    }
    loop
        invariant
            n == tokens@.len(),
            td == tokens.deep_view(),
            td.len() == tokens@.len(),
            forall|j: int| 0 <= j < tokens@.len() ==> #[trigger] td[j] == tokens@[j]@,
            c_in == *old(cursor) as int,
            c_in <= *cursor <= n,
            parse_elements_spec(td, c_in) == (match parse_elements_spec(td, *cursor as int) {
                Ok((rest, ce)) => Ok::<_, ParseError>((got + rest, ce)),
                Err(e) => Err(e),
            }),
            jv_model_elems(elems@) == got,
        decreases n - *cursor,
    {
        let cur: usize = *cursor;
        if cur >= n {
            return Err(ParseError::UnexpectedEndOfInput);
        }
        if tok_eq(&tokens[cur], "]") {
            *cursor = cur + 1;
            proof {
                assert(got + Seq::<Json>::empty() =~= got);
            }
            return Ok(JsonValue::Arr(elems));
        }
        let val = match parse_value(tokens, cursor) {
            Ok(v) => v,
            Err(e) => {
                return Err(e);
            },
        };
        let ghost cv0 = *cursor as int;
        proof {
            assert(bump(cv0, cur as int) == cv0);
        }
        let ghost ve = jv_model(val);
        let cv: usize = *cursor;
        if cv >= n {
            return Err(ParseError::UnexpectedEndOfInput);
        }
        let comma = tok_eq(&tokens[cv], ",");
        let closing = if comma {
            false
        } else {
            tok_eq(&tokens[cv], "]")
        };
        if !comma && !closing {
            return Err(ParseError::UnexpectedToken);
        }
        let ghost old_elems = elems@;
        elems.push(val);
        let ghost got_old = got;
        let ghost got2 = got_old.push(ve);
        proof {
            lemma_model_elems(old_elems);
            lemma_model_elems(elems@);
            assert(jv_model_elems(elems@) =~= got2);
            got = got2;
        }
        *cursor = cv + 1;
        if closing {
            proof {
                assert(parse_elements_spec(td, cur as int) == Ok::<_, ParseError>(
                    (seq![ve], cv + 1),
                ));
                assert(got_old + seq![ve] =~= got2);
                assert(parse_elements_spec(td, c_in) == Ok::<_, ParseError>((got2, cv + 1)));
            }
            return Ok(JsonValue::Arr(elems));
        }
        proof {
            match parse_elements_spec(td, cv + 1) {
                Ok(pr) => {
                    assert(parse_elements_spec(td, cur as int) == Ok::<_, ParseError>(
                        (seq![ve] + pr.0, pr.1),
                    ));
                    assert(got_old + (seq![ve] + pr.0) =~= got2 + pr.0);
                    assert(parse_elements_spec(td, c_in) == Ok::<_, ParseError>(
                        (got2 + pr.0, pr.1),
                    ));
                },
                Err(e) => {
                    assert(parse_elements_spec(td, cur as int) == Err::<(Seq<Json>, int), _>(e));
                },
            }
        }
    }
}

/// Reads one value, dispatching on the token at the cursor: `{` opens an
/// object, `[` an array, `"` a string, a keyword token stands for
/// itself, and anything else must be a number.
pub fn parse_value(tokens: &Vec<String>, cursor: &mut usize) -> (r: Result<JsonValue, ParseError>)
    ensures
        match r {
            Ok(v) => parse_value_spec(tokens.deep_view(), *old(cursor) as int) == Ok::<
                _,
                ParseError,
            >((v@, *final(cursor) as int)) && *old(cursor) < *final(cursor) <= tokens@.len(),
            Err(e) => parse_value_spec(tokens.deep_view(), *old(cursor) as int) == Err::<
                (Json, int),
                _,
            >(e),
        },
    decreases tokens@.len() - *old(cursor), 1int,
{
    let ghost td = tokens.deep_view();
    let c0: usize = *cursor;
    let n: usize = tokens.len();
    proof {
        assert(td.len() == tokens@.len());
        assert(forall|j: int| 0 <= j < tokens@.len() ==> #[trigger] td[j] == tokens@[j]@);
        lemma_parse_value_advances(td, c0 as int);
    }
    if c0 >= n {
        return Err(ParseError::UnexpectedEndOfInput);
    }
    if tok_eq(&tokens[c0], "{") {
        *cursor = c0 + 1;
        parse_object(tokens, cursor)
    } else if tok_eq(&tokens[c0], "[") {
        *cursor = c0 + 1;
        parse_array(tokens, cursor)
    } else if tok_eq(&tokens[c0], "\"") {
        *cursor = c0 + 1;
        match parse_string(tokens, cursor) {
            Ok(s) => Ok(JsonValue::Str(s)),
            Err(e) => Err(e),
        }
    } else if tok_eq(&tokens[c0], "true") {
        *cursor = c0 + 1;
        Ok(JsonValue::Bool(true))
    } else if tok_eq(&tokens[c0], "false") {
        *cursor = c0 + 1;
        Ok(JsonValue::Bool(false))
    } else if tok_eq(&tokens[c0], "null") {
        *cursor = c0 + 1;
        Ok(JsonValue::Null)
    } else {
        parse_number(tokens, cursor)
    }
}

/// Turns a whole byte document into a value tree: tokens first, then one
/// value parsed from the front; tokens after the first value are left
/// unread, and any failure of either pass is returned as a typed error.
pub fn parse_json(bytes: &Vec<u8>) -> (r: Result<JsonValue, JsonError>)
    ensures
        match r {
            Ok(v) => parse_json_spec(chars_of(bytes@)) == Ok::<_, JsonError>(v@),
            Err(e) => parse_json_spec(chars_of(bytes@)) == Err::<Json, _>(e),
        },
{
    let toks = match tokenize(bytes) {
        Ok(t) => t,
        Err(e) => {
            return Err(JsonError::Tokenize(e));
        },
    };
    let mut cursor: usize = 0;
    match parse_value(&toks, &mut cursor) {
        Ok(v) => Ok(v),
        Err(e) => Err(JsonError::Parse(e)),
    }
}

} // verus!
