//! The round-trip theorem: parsing the serialized text of any tree the
//! parser can produce gives that tree back.
//!
//! The proof follows the pipeline. First the tokenizer: running the
//! state machine over a rendered tree yields exactly the tree's token
//! sequence ([`full_toks`]), shown by induction over the tree with the
//! run-concatenation lemma. Then the parser: recursive descent over
//! that token sequence rebuilds exactly the tree, shown by a second
//! induction. [`lemma_round_trip`] composes the two.

use vstd::prelude::*;

use crate::parser::{
    bump, dedup_from, dedup_keys, find_key, is_number_text, is_sign, lemma_find_key_props,
    lemma_parse_value_advances, num_accept, num_run, num_step, parse_elements_spec,
    parse_json_spec, parse_members_spec, parse_number_spec, parse_string_spec, parse_value_spec,
    upsert, JsonError, NumState, ParseError,
};
use crate::serial::{
    escape_char, escape_text, quote_text, ser_item, ser_items, ser_pair, ser_pairs, ser_spec,
    uniq_keys, wf_elems, wf_json, wf_pairs,
};
use crate::token::{
    is_digit, lemma_lex_run_concat, lex_finish, lex_flush, lex_init, lex_push, lex_run, lex_step,
    tokenize_spec, LexState, TokenizeError,
};
use crate::value::Json;

verus! {

/// An exponent marker character.
pub open spec fn is_marker(c: char) -> bool {
    c == 'e' || c == 'E'
}

/// The first position holding an exponent marker, or `-1`.
pub open spec fn marker_idx(s: Seq<char>) -> int
    decreases s.len(),
{
    if s.len() == 0 {
        -1
    } else if is_marker(s[0]) {
        0
    } else {
        let r = marker_idx(s.drop_first());
        if r == -1 {
            -1
        } else {
            r + 1
        }
    }
}

/// How the first marker position changes when one character is added at
/// the end.
pub proof fn lemma_marker_idx_push(s: Seq<char>, c: char)
    ensures
        marker_idx(s.push(c)) == if marker_idx(s) != -1 {
            marker_idx(s)
        } else if is_marker(c) {
            s.len() as int
        } else {
            -1
        },
        marker_idx(s) != -1 ==> 0 <= marker_idx(s) < s.len() && is_marker(s[marker_idx(s)]),
    decreases s.len(),
{
    if s.len() == 0 {
        assert(s.push(c)[0] == c);
        if is_marker(c) {
            assert(marker_idx(s.push(c)) == 0);
        } else {
            assert(s.push(c).drop_first() =~= Seq::<char>::empty());
            assert(marker_idx(s.push(c).drop_first()) == -1);
            assert(marker_idx(s.push(c)) == -1);
        }
    } else {
        assert(s.push(c)[0] == s[0]);
        assert(s.push(c).drop_first() =~= s.drop_first().push(c));
        let d = s.drop_first();
        lemma_marker_idx_push(d, c);
        assert(marker_idx(s.push(c).drop_first()) == marker_idx(d.push(c)));
        if is_marker(s[0]) {
            assert(marker_idx(s) == 0);
            assert(marker_idx(s.push(c)) == 0);
        } else {
            let r = marker_idx(d);
            assert(marker_idx(s) == if r == -1 {
                -1int
            } else {
                r + 1
            });
            if r != -1 {
                assert(marker_idx(d.push(c)) == r);
                assert(marker_idx(s.push(c)) == r + 1);
                assert(s[marker_idx(s)] == d[marker_idx(s) - 1]);
            } else if is_marker(c) {
                assert(marker_idx(d.push(c)) == d.len());
                assert(marker_idx(s.push(c)) == d.len() + 1);
                assert(d.len() + 1 == s.len());
            } else {
                assert(marker_idx(d.push(c)) == -1);
                assert(marker_idx(s.push(c)) == -1);
            }
        }
    }
}

/// A character a number's runs are made of.
pub open spec fn plain_num(c: char) -> bool {
    is_digit(c) || c == '+' || c == '-' || c == '.'
}

/// Every character of the run is a number character.
pub open spec fn all_plain(s: Seq<char>) -> bool {
    forall|i: int| 0 <= i < s.len() ==> plain_num(#[trigger] s[i])
}

/// How the tokenizer walks a text that the number recognizer does not
/// reject: before any exponent marker everything gathers into one run;
/// the marker ends that run and stands alone; the rest gathers again.
pub proof fn lemma_lex_num(st0: LexState, t: Seq<char>)
    requires
        !st0.in_string,
        !st0.escape,
        st0.curr.len() == 0,
    ensures
        ({
            let st = num_run(NumState::Start, t);
            let m = marker_idx(t);
            &&& (st == NumState::AfterSign || st == NumState::IntDigits || st
                == NumState::AfterPoint || st == NumState::FracDigits) ==> (m == -1 && all_plain(t)
                && t.len() > 0 && lex_run(st0, t) == Ok::<_, TokenizeError>(
                LexState { tokens: st0.tokens, curr: t, in_string: false, escape: false },
            ))
            &&& (st == NumState::IntDigits || st == NumState::FracDigits) ==> is_digit(t.last())
            &&& (st == NumState::AfterMarker || st == NumState::AfterExpSign || st
                == NumState::ExpDigits) ==> (0 < m < t.len() && is_marker(t[m]) && all_plain(
                t.take(m),
            ) && all_plain(t.skip(m + 1)) && (num_run(NumState::Start, t.take(m))
                == NumState::IntDigits || num_run(NumState::Start, t.take(m))
                == NumState::FracDigits) && lex_run(st0, t) == Ok::<_, TokenizeError>(
                LexState {
                    tokens: st0.tokens.push(t.take(m)).push(seq![t[m]]),
                    curr: t.skip(m + 1),
                    in_string: false,
                    escape: false,
                },
            ))
            &&& st == NumState::ExpDigits ==> t.skip(marker_idx(t) + 1).len() > 0
        }),
    decreases t.len(),
{
    if t.len() > 0 {
        let p = t.drop_last();
        let c = t.last();
        lemma_lex_num(st0, p);
        lemma_marker_idx_push(p, c);
        assert(t =~= p.push(c));
        let stp = num_run(NumState::Start, p);
        let st = num_run(NumState::Start, t);
        assert(st == num_step(stp, c));
        let m = marker_idx(t);
        if stp == NumState::Start {
            if is_sign(c) || is_digit(c) {
                assert(m == -1);
                assert(all_plain(t));
                assert(lex_run(st0, t) == lex_step(st0, c));
                assert(lex_step(st0, c) == Ok::<_, TokenizeError>(lex_push(st0, c)));
                assert(lex_push(st0, c).curr =~= t);
            }
        } else if stp == NumState::AfterSign || stp == NumState::IntDigits || stp
            == NumState::AfterPoint || stp == NumState::FracDigits {
            let prev = LexState { tokens: st0.tokens, curr: p, in_string: false, escape: false };
            if is_digit(c) || c == '.' {
                assert(m == -1);
                assert(all_plain(t)) by {
                    assert(forall|i: int| 0 <= i < p.len() ==> #[trigger] t[i] == p[i]);
                }
                assert(lex_run(st0, t) == lex_step(prev, c));
                assert(lex_step(prev, c) == Ok::<_, TokenizeError>(lex_push(prev, c)));
                assert(lex_push(prev, c).curr =~= t);
            } else if is_marker(c) && (stp == NumState::IntDigits || stp == NumState::FracDigits) {
                assert(st == NumState::AfterMarker);
                assert(m == p.len());
                assert(t[m] == c);
                assert(t.take(m) =~= p);
                assert(t.skip(m + 1) =~= Seq::<char>::empty());
                assert(is_digit(prev.curr.last()));
                assert(lex_run(st0, t) == lex_step(prev, c));
                assert(lex_step(prev, c) == Ok::<_, TokenizeError>(
                    LexState {
                        tokens: lex_flush(prev).tokens.push(seq![c]),
                        ..lex_flush(prev)
                    },
                ));
            }
        } else if stp == NumState::AfterMarker || stp == NumState::AfterExpSign || stp
            == NumState::ExpDigits {
            let mp = marker_idx(p);
            let prev = LexState {
                tokens: st0.tokens.push(p.take(mp)).push(seq![p[mp]]),
                curr: p.skip(mp + 1),
                in_string: false,
                escape: false,
            };
            if is_sign(c) || is_digit(c) {
                assert(m == mp);
                assert(t[m] == p[m]);
                assert(t.take(m) =~= p.take(mp));
                assert(t.skip(m + 1) =~= p.skip(mp + 1).push(c));
                assert(all_plain(t.skip(m + 1))) by {
                    assert(forall|i: int|
                        0 <= i < p.skip(mp + 1).len() ==> #[trigger] t.skip(m + 1)[i] == p.skip(
                            mp + 1,
                        )[i]);
                    assert(t.skip(m + 1)[t.skip(m + 1).len() - 1] == c);
                }
                assert(lex_run(st0, t) == lex_step(prev, c));
                assert(lex_step(prev, c) == Ok::<_, TokenizeError>(lex_push(prev, c)));
                assert(lex_push(prev, c).curr =~= t.skip(m + 1));
            }
        }
    }
}

/// The tokens a number text becomes before its last run: nothing, or
/// the mantissa run and the lone marker.
pub open spec fn num_emitted(t: Seq<char>) -> Seq<Seq<char>> {
    let m = marker_idx(t);
    if m == -1 {
        Seq::empty()
    } else {
        seq![t.take(m), seq![t[m]]]
    }
}

/// A number text's last run: the whole text, or what follows the
/// marker.
pub open spec fn num_pending(t: Seq<char>) -> Seq<char> {
    let m = marker_idx(t);
    if m == -1 {
        t
    } else {
        t.skip(m + 1)
    }
}

/// How the tokenizer walks a well-formed number text.
pub proof fn lemma_lex_number(st0: LexState, t: Seq<char>)
    requires
        !st0.in_string,
        !st0.escape,
        st0.curr.len() == 0,
        is_number_text(t),
    ensures
        lex_run(st0, t) == Ok::<_, TokenizeError>(
            LexState {
                tokens: st0.tokens + num_emitted(t),
                curr: num_pending(t),
                in_string: false,
                escape: false,
            },
        ),
        num_pending(t).len() > 0,
        all_plain(num_pending(t)),
        marker_idx(t) != -1 ==> all_plain(t.take(marker_idx(t))) && t.take(marker_idx(t)).len() > 0
            && is_marker(t[marker_idx(t)]) && num_accept(num_run(NumState::Start, t)),
        marker_idx(t) != -1 ==> 0 < marker_idx(t) < t.len() && t.skip(marker_idx(t) + 1).len() > 0
            && all_plain(t.skip(marker_idx(t) + 1)),
        marker_idx(t) != -1 ==> (num_run(NumState::Start, t.take(marker_idx(t)))
            == NumState::IntDigits || num_run(NumState::Start, t.take(marker_idx(t)))
            == NumState::FracDigits),
        marker_idx(t) == -1 ==> all_plain(t),
        t.len() > 0,
{
    lemma_lex_num(st0, t);
    let st = num_run(NumState::Start, t);
    let m = marker_idx(t);
    if m == -1 {
        assert(st0.tokens + Seq::<Seq<char>>::empty() =~= st0.tokens);
    } else {
        assert(st0.tokens + seq![t.take(m), seq![t[m]]] =~= st0.tokens.push(t.take(m)).push(
            seq![t[m]],
        ));
        assert(t.take(m).len() > 0) by {
            if t.take(m).len() == 0 {
                assert(num_run(NumState::Start, t.take(m)) == NumState::Start);
            }
        }
    }
}

/// The tokens a rendered string becomes: a quote, the content run where
/// there is one, a quote.
pub open spec fn str_toks(s: Seq<char>) -> Seq<Seq<char>> {
    if s.len() > 0 {
        seq![seq!['"'], s, seq!['"']]
    } else {
        seq![seq!['"'], seq!['"']]
    }
}

/// The tokens a rendered value becomes before its unflushed tail run.
pub open spec fn emitted_of(v: Json) -> Seq<Seq<char>>
    decreases v, 0int,
{
    match v {
        Json::Obj(pairs) => seq![seq!['{']] + pairs_toks(pairs) + seq![seq!['}']],
        Json::Arr(elems) => seq![seq!['[']] + items_toks(elems) + seq![seq![']']],
        Json::Str(s) => str_toks(s),
        Json::Num(t) => num_emitted(t),
        Json::Bool(b) => Seq::empty(),
        Json::Null => Seq::empty(),
    }
}

/// A rendered value's unflushed tail run: a keyword or a number's last
/// run still gathers when the value's text ends, and becomes a token
/// only at the next structural character, whitespace or the end of
/// input.
pub open spec fn pend_of(v: Json) -> Seq<char> {
    match v {
        Json::Num(t) => num_pending(t),
        Json::Bool(b) => if b {
            "true"@
        } else {
            "false"@
        },
        Json::Null => "null"@,
        _ => Seq::empty(),
    }
}

/// The tail run as a token list: one token, or none.
pub open spec fn pend_toks(v: Json) -> Seq<Seq<char>> {
    if pend_of(v).len() > 0 {
        seq![pend_of(v)]
    } else {
        Seq::empty()
    }
}

/// All the tokens a rendered value becomes.
pub open spec fn full_toks(v: Json) -> Seq<Seq<char>>
    decreases v, 1int,
{
    emitted_of(v) + pend_toks(v)
}

/// The tokens an array's rendered entries become: each entry's tokens,
/// a comma after each.
pub open spec fn items_toks(elems: Seq<Json>) -> Seq<Seq<char>>
    decreases elems, 2int,
{
    if elems.len() == 0 {
        Seq::empty()
    } else {
        full_toks(elems.first()) + seq![seq![',']] + items_toks(elems.drop_first())
    }
}

/// The tokens an object's rendered entries become: each key's tokens, a
/// colon, the value's tokens, a comma after each.
pub open spec fn pairs_toks(pairs: Seq<(Seq<char>, Json)>) -> Seq<Seq<char>>
    decreases pairs, 2int,
{
    if pairs.len() == 0 {
        Seq::empty()
    } else {
        str_toks(pairs.first().0) + seq![seq![':']] + full_toks(pairs.first().1) + seq![seq![',']]
            + pairs_toks(pairs.drop_first())
    }
}

/// Entry token lists grow at the right as entries do.
pub proof fn lemma_items_toks_push(elems: Seq<Json>, e: Json)
    ensures
        items_toks(elems.push(e)) == items_toks(elems) + full_toks(e) + seq![seq![',']],
    decreases elems.len(),
{
    let ep = elems.push(e);
    if elems.len() == 0 {
        assert(ep.first() == e);
        assert(ep.drop_first() =~= Seq::<Json>::empty());
        assert(items_toks(ep.drop_first()) =~= Seq::<Seq<char>>::empty());
        assert(items_toks(elems) =~= Seq::<Seq<char>>::empty());
        assert(items_toks(ep) == full_toks(e) + seq![seq![',']] + items_toks(ep.drop_first()));
        assert(items_toks(ep) =~= items_toks(elems) + full_toks(e) + seq![seq![',']]);
    } else {
        assert(ep.first() == elems.first());
        assert(ep.drop_first() =~= elems.drop_first().push(e));
        lemma_items_toks_push(elems.drop_first(), e);
        assert(items_toks(ep) == full_toks(elems.first()) + seq![seq![',']] + items_toks(
            ep.drop_first(),
        ));
        assert(items_toks(ep.drop_first()) == items_toks(elems.drop_first()) + full_toks(e)
            + seq![seq![',']]);
        assert(items_toks(elems) == full_toks(elems.first()) + seq![seq![',']] + items_toks(
            elems.drop_first(),
        ));
        assert(items_toks(ep) =~~= items_toks(elems) + full_toks(e) + seq![seq![',']]);
    }
}

/// Entry token lists grow at the right as entries do.
pub proof fn lemma_pairs_toks_push(pairs: Seq<(Seq<char>, Json)>, p: (Seq<char>, Json))
    ensures
        pairs_toks(pairs.push(p)) == pairs_toks(pairs) + str_toks(p.0) + seq![seq![':']]
            + full_toks(p.1) + seq![seq![',']],
    decreases pairs.len(),
{
    let ep = pairs.push(p);
    if pairs.len() == 0 {
        assert(ep.first() == p);
        assert(ep.drop_first() =~= Seq::<(Seq<char>, Json)>::empty());
        assert(pairs_toks(ep.drop_first()) =~= Seq::<Seq<char>>::empty());
        assert(pairs_toks(pairs) =~= Seq::<Seq<char>>::empty());
        assert(pairs_toks(ep) == str_toks(p.0) + seq![seq![':']] + full_toks(p.1)
            + seq![seq![',']] + pairs_toks(ep.drop_first()));
        assert(pairs_toks(ep) =~= pairs_toks(pairs) + str_toks(p.0) + seq![seq![':']] + full_toks(
            p.1,
        ) + seq![seq![',']]);
    } else {
        assert(ep.first() == pairs.first());
        assert(ep.drop_first() =~= pairs.drop_first().push(p));
        lemma_pairs_toks_push(pairs.drop_first(), p);
        assert(pairs_toks(ep) == str_toks(pairs.first().0) + seq![seq![':']] + full_toks(
            pairs.first().1,
        ) + seq![seq![',']] + pairs_toks(ep.drop_first()));
        assert(pairs_toks(ep.drop_first()) == pairs_toks(pairs.drop_first()) + str_toks(p.0)
            + seq![seq![':']] + full_toks(p.1) + seq![seq![',']]);
        assert(pairs_toks(pairs) == str_toks(pairs.first().0) + seq![seq![':']] + full_toks(
            pairs.first().1,
        ) + seq![seq![',']] + pairs_toks(pairs.drop_first()));
        assert(pairs_toks(ep) =~~= pairs_toks(pairs) + str_toks(p.0) + seq![seq![':']] + full_toks(
            p.1,
        ) + seq![seq![',']]);
    }
}

/// The tokenizer's state after a piece of rendered text: gained tokens,
/// a run in progress, outside any string.
pub open spec fn lex_after(st: LexState, ts: Seq<Seq<char>>, curr: Seq<char>) -> LexState {
    LexState { tokens: st.tokens + ts, curr, in_string: false, escape: false }
}

/// One character runs as one step.
pub proof fn lemma_lex_one(st: LexState, c: char)
    ensures
        lex_run(st, seq![c]) == lex_step(st, c),
{
    assert(seq![c].drop_last() =~= Seq::<char>::empty());
    assert(lex_run(st, seq![c].drop_last()) == Ok::<_, TokenizeError>(st));
    assert(seq![c].last() == c);
}

/// A keyword letter: gathered into the run in progress outside a
/// string, never an exponent marker.
pub open spec fn word_char(c: char) -> bool {
    'a' <= c && c <= 'z' && c != 'e'
}

/// Keyword letters gather into the run in progress.
pub proof fn lemma_lex_word(st: LexState, s: Seq<char>)
    requires
        !st.in_string,
        !st.escape,
        forall|i: int| 0 <= i < s.len() ==> word_char(#[trigger] s[i]),
    ensures
        lex_run(st, s) == Ok::<_, TokenizeError>(LexState { curr: st.curr + s, ..st }),
    decreases s.len(),
{
    if s.len() == 0 {
        assert(st.curr + s =~= st.curr);
        assert(LexState { curr: st.curr + s, ..st } == st);
    } else {
        let p = s.drop_last();
        let c = s.last();
        lemma_lex_word(st, p);
        let prev = LexState { curr: st.curr + p, ..st };
        assert(lex_run(st, s) == lex_step(prev, c));
        assert(lex_step(prev, c) == Ok::<_, TokenizeError>(lex_push(prev, c)));
        assert(lex_push(prev, c).curr =~= st.curr + s);
    }
}

/// Blank filler — spaces and line breaks — leaves an empty-run state
/// unchanged.
pub proof fn lemma_lex_blank(st: LexState, s: Seq<char>)
    requires
        !st.in_string,
        !st.escape,
        st.curr.len() == 0,
        forall|i: int| 0 <= i < s.len() ==> (#[trigger] s[i] == ' ' || s[i] == '\n'),
    ensures
        lex_run(st, s) == Ok::<_, TokenizeError>(st),
    decreases s.len(),
{
    if s.len() > 0 {
        let p = s.drop_last();
        let c = s.last();
        lemma_lex_blank(st, p);
        assert(lex_run(st, s) == lex_step(st, c));
        assert(lex_flush(st).curr =~= st.curr);
        assert(lex_flush(st) == st);
    }
}

/// Escaped string content gathers back into exactly the original
/// characters, the string still open.
pub proof fn lemma_lex_escape_content(st: LexState, s: Seq<char>)
    requires
        st.in_string,
        !st.escape,
    ensures
        lex_run(st, escape_text(s)) == Ok::<_, TokenizeError>(
            LexState { tokens: st.tokens, curr: st.curr + s, in_string: true, escape: false },
        ),
    decreases s.len(),
{
    if s.len() == 0 {
        assert(st.curr + s =~= st.curr);
        assert(LexState { tokens: st.tokens, curr: st.curr + s, in_string: true, escape: false }
            == st);
    } else {
        let p = s.drop_last();
        let c = s.last();
        lemma_lex_escape_content(st, p);
        lemma_lex_run_concat(st, escape_text(p), escape_char(c));
        let prev = LexState {
            tokens: st.tokens,
            curr: st.curr + p,
            in_string: true,
            escape: false,
        };
        if c == '\\' || c == '"' || c == '\u{0008}' || c == '\u{000C}' || c == '\n' || c == '\r'
            || c == '\t' {
            let target = escape_char(c)[1];
            assert(escape_char(c).drop_last() =~= seq!['\\']);
            assert(escape_char(c).last() == target);
            lemma_lex_one(prev, '\\');
            let mid = LexState { escape: true, ..prev };
            assert(lex_run(prev, seq!['\\']) == Ok::<_, TokenizeError>(mid));
            assert(lex_run(prev, escape_char(c)) == lex_step(mid, target));
            assert(lex_step(mid, target) == Ok::<_, TokenizeError>(
                LexState { escape: false, ..lex_push(mid, c) },
            ));
            assert(lex_push(mid, c).curr =~= st.curr + s);
        } else {
            assert(escape_char(c) =~= seq![c]);
            lemma_lex_one(prev, c);
            assert(lex_step(prev, c) == Ok::<_, TokenizeError>(lex_push(prev, c)));
            assert(lex_push(prev, c).curr =~= st.curr + s);
        }
    }
}

/// A rendered string becomes its quote, content and quote tokens, the
/// run in progress empty again.
pub proof fn lemma_lex_quote(st: LexState, s: Seq<char>)
    requires
        !st.in_string,
        !st.escape,
        st.curr.len() == 0,
    ensures
        lex_run(st, quote_text(s)) == Ok::<_, TokenizeError>(
            lex_after(st, str_toks(s), Seq::empty()),
        ),
{
    reveal_strlit("\"");
    assert("\""@ =~= seq!['"']);
    lemma_lex_run_concat(st, "\""@ + escape_text(s), "\""@);
    lemma_lex_run_concat(st, "\""@, escape_text(s));
    lemma_lex_one(st, '"');
    assert(lex_run(st, "\""@) == lex_step(st, '"'));
    assert(lex_flush(st).tokens =~= st.tokens);
    let opened = LexState {
        tokens: st.tokens.push(seq!['"']),
        curr: Seq::empty(),
        in_string: true,
        escape: false,
    };
    assert(lex_step(st, '"') == Ok::<_, TokenizeError>(opened)) by {
        assert(lex_flush(st).tokens.push(seq!['"']) =~= st.tokens.push(seq!['"']));
    }
    lemma_lex_escape_content(opened, s);
    let filled = LexState {
        tokens: opened.tokens,
        curr: opened.curr + s,
        in_string: true,
        escape: false,
    };
    assert(filled.curr =~= s);
    lemma_lex_one(filled, '"');
    let closed = LexState {
        tokens: if s.len() > 0 {
            filled.tokens.push(s)
        } else {
            filled.tokens
        }.push(seq!['"']),
        curr: Seq::empty(),
        in_string: false,
        escape: false,
    };
    assert(lex_step(filled, '"') == Ok::<_, TokenizeError>(closed)) by {
        assert(lex_flush(filled).curr =~= Seq::<char>::empty());
        if s.len() > 0 {
            assert(lex_flush(filled).tokens == filled.tokens.push(s));
        }
    }
    assert(quote_text(s) == "\""@ + escape_text(s) + "\""@);
    assert(lex_run(st, quote_text(s)) == lex_run(filled, "\""@)) by {
        assert(quote_text(s) =~= ("\""@ + escape_text(s)) + "\""@);
    }
    assert(closed.tokens =~= st.tokens + str_toks(s));
}

/// Tokenizing a rendered tree yields the tree's tokens, its tail run
/// still gathering.
pub proof fn lemma_lex_ser(st0: LexState, v: Json)
    requires
        !st0.in_string,
        !st0.escape,
        st0.curr.len() == 0,
        wf_json(v),
    ensures
        lex_run(st0, ser_spec(v)) == Ok::<_, TokenizeError>(
            lex_after(st0, emitted_of(v), pend_of(v)),
        ),
    decreases v, 0int,
{
    match v {
        Json::Null => {
            reveal_strlit("null");
            assert("null"@ =~= seq!['n', 'u', 'l', 'l']);
            lemma_lex_word(st0, "null"@);
            assert(st0.curr + "null"@ =~= "null"@);
            assert(st0.tokens + Seq::<Seq<char>>::empty() =~= st0.tokens);
        },
        Json::Bool(b) => {
            let w = if b {
                "true"@
            } else {
                "false"@
            };
            if b {
                reveal_strlit("true");
                assert(w =~= seq!['t', 'r', 'u'] + seq!['e']);
                lemma_lex_word(st0, seq!['t', 'r', 'u']);
            } else {
                reveal_strlit("false");
                assert(w =~= seq!['f', 'a', 'l', 's'] + seq!['e']);
                lemma_lex_word(st0, seq!['f', 'a', 'l', 's']);
            }
            let p = w.drop_last();
            let prev = LexState { curr: st0.curr + p, ..st0 };
            assert(lex_run(st0, p) == Ok::<_, TokenizeError>(prev)) by {
                if b {
                    assert(p =~= seq!['t', 'r', 'u']);
                } else {
                    assert(p =~= seq!['f', 'a', 'l', 's']);
                }
            }
            assert(w.last() == 'e');
            assert(!is_digit(prev.curr.last()));
            assert(lex_run(st0, w) == lex_step(prev, 'e'));
            assert(lex_step(prev, 'e') == Ok::<_, TokenizeError>(lex_push(prev, 'e')));
            assert(lex_push(prev, 'e').curr =~= w);
            assert(st0.tokens + Seq::<Seq<char>>::empty() =~= st0.tokens);
        },
        Json::Num(t) => {
            lemma_lex_number(st0, t);
        },
        Json::Str(s) => {
            lemma_lex_quote(st0, s);
        },
        Json::Arr(elems) => {
            reveal_strlit("[\n");
            reveal_strlit("]");
            assert("[\n"@ =~= seq!['['] + seq!['\n']);
            assert("]"@ =~= seq![']']);
            lemma_lex_run_concat(st0, "[\n"@ + ser_items(elems), "]"@);
            lemma_lex_run_concat(st0, "[\n"@, ser_items(elems));
            lemma_lex_run_concat(st0, seq!['['], seq!['\n']);
            lemma_lex_one(st0, '[');
            let opened = lex_after(st0, seq![seq!['[']], Seq::empty());
            assert(lex_step(st0, '[') == Ok::<_, TokenizeError>(opened)) by {
                assert(lex_flush(st0).tokens =~= st0.tokens);
                assert(lex_flush(st0).tokens.push(seq!['[']) =~= st0.tokens + seq![seq!['[']]);
            }
            lemma_lex_one(opened, '\n');
            assert(lex_step(opened, '\n') == Ok::<_, TokenizeError>(opened)) by {
                assert(lex_flush(opened).curr =~= opened.curr);
                assert(lex_flush(opened) == opened);
            }
            assert(lex_run(st0, "[\n"@) == Ok::<_, TokenizeError>(opened));
            lemma_lex_items(opened, elems);
            let after_items = lex_after(opened, items_toks(elems), Seq::empty());
            lemma_lex_one(after_items, ']');
            let closed = lex_after(st0, emitted_of(v), Seq::empty());
            assert(lex_step(after_items, ']') == Ok::<_, TokenizeError>(closed)) by {
                assert(lex_flush(after_items).curr =~= after_items.curr);
                assert(lex_flush(after_items) == after_items);
                assert(after_items.tokens.push(seq![']']) =~= st0.tokens + emitted_of(v));
            }
            assert(lex_run(st0, ser_spec(v)) == lex_run(after_items, "]"@)) by {
                assert(ser_spec(v) =~= ("[\n"@ + ser_items(elems)) + "]"@);
            }
            assert(pend_of(v) =~= Seq::<char>::empty());
        },
        Json::Obj(pairs) => {
            reveal_strlit("{\n");
            reveal_strlit("}");
            assert("{\n"@ =~= seq!['{'] + seq!['\n']);
            assert("}"@ =~= seq!['}']);
            lemma_lex_run_concat(st0, "{\n"@ + ser_pairs(pairs), "}"@);
            lemma_lex_run_concat(st0, "{\n"@, ser_pairs(pairs));
            lemma_lex_run_concat(st0, seq!['{'], seq!['\n']);
            lemma_lex_one(st0, '{');
            let opened = lex_after(st0, seq![seq!['{']], Seq::empty());
            assert(lex_step(st0, '{') == Ok::<_, TokenizeError>(opened)) by {
                assert(lex_flush(st0).tokens =~= st0.tokens);
                assert(lex_flush(st0).tokens.push(seq!['{']) =~= st0.tokens + seq![seq!['{']]);
            }
            lemma_lex_one(opened, '\n');
            assert(lex_step(opened, '\n') == Ok::<_, TokenizeError>(opened)) by {
                assert(lex_flush(opened).curr =~= opened.curr);
                assert(lex_flush(opened) == opened);
            }
            assert(lex_run(st0, "{\n"@) == Ok::<_, TokenizeError>(opened));
            lemma_lex_pairs(opened, pairs);
            let after_pairs = lex_after(opened, pairs_toks(pairs), Seq::empty());
            lemma_lex_one(after_pairs, '}');
            let closed = lex_after(st0, emitted_of(v), Seq::empty());
            assert(lex_step(after_pairs, '}') == Ok::<_, TokenizeError>(closed)) by {
                assert(lex_flush(after_pairs).curr =~= after_pairs.curr);
                assert(lex_flush(after_pairs) == after_pairs);
                assert(after_pairs.tokens.push(seq!['}']) =~= st0.tokens + emitted_of(v));
            }
            assert(lex_run(st0, ser_spec(v)) == lex_run(after_pairs, "}"@)) by {
                assert(ser_spec(v) =~= ("{\n"@ + ser_pairs(pairs)) + "}"@);
            }
            assert(pend_of(v) =~= Seq::<char>::empty());
        },
    }
}

/// Tokenizing an array's rendered entries yields the entries' tokens,
/// the run in progress empty again.
pub proof fn lemma_lex_items(st0: LexState, elems: Seq<Json>)
    requires
        !st0.in_string,
        !st0.escape,
        st0.curr.len() == 0,
        wf_elems(elems),
    ensures
        lex_run(st0, ser_items(elems)) == Ok::<_, TokenizeError>(
            lex_after(st0, items_toks(elems), Seq::empty()),
        ),
    decreases elems, 1int,
{
    if elems.len() == 0 {
        assert(st0.tokens + items_toks(elems) =~= st0.tokens);
        assert(lex_after(st0, items_toks(elems), Seq::empty()) == st0) by {
            assert(st0.curr =~= Seq::<char>::empty());
        }
    } else {
        let p = elems.drop_last();
        let e = elems.last();
        lemma_lex_items(st0, p);
        lemma_items_toks_push(p, e);
        assert(p.push(e) =~= elems);
        lemma_lex_run_concat(st0, ser_items(p), ser_item(e));
        let mid = lex_after(st0, items_toks(p), Seq::empty());
        reveal_strlit("    ");
        reveal_strlit(",\n");
        assert("    "@ =~= seq![' ', ' ', ' ', ' ']);
        assert(",\n"@ =~= seq![','] + seq!['\n']);
        lemma_lex_run_concat(mid, "    "@ + ser_spec(e), ",\n"@);
        lemma_lex_run_concat(mid, "    "@, ser_spec(e));
        lemma_lex_blank(mid, "    "@);
        lemma_lex_ser(mid, e);
        let done = lex_after(mid, emitted_of(e), pend_of(e));
        lemma_lex_run_concat(done, seq![','], seq!['\n']);
        lemma_lex_one(done, ',');
        let flushed = lex_after(st0, items_toks(p) + full_toks(e) + seq![seq![',']], Seq::empty());
        assert(lex_step(done, ',') == Ok::<_, TokenizeError>(flushed)) by {
            assert(lex_flush(done).tokens.push(seq![',']) =~= flushed.tokens);
        }
        lemma_lex_one(flushed, '\n');
        assert(lex_step(flushed, '\n') == Ok::<_, TokenizeError>(flushed)) by {
            assert(lex_flush(flushed).curr =~= flushed.curr);
            assert(lex_flush(flushed) == flushed);
        }
        assert(lex_run(mid, ser_item(e)) == Ok::<_, TokenizeError>(flushed)) by {
            assert(ser_item(e) =~= ("    "@ + ser_spec(e)) + ",\n"@);
        }
        assert(flushed == lex_after(st0, items_toks(elems), Seq::empty())) by {
            assert(items_toks(p) + full_toks(e) + seq![seq![',']] =~= items_toks(elems));
        }
    }
}

/// Tokenizing an object's rendered entries yields the entries' tokens,
/// the run in progress empty again.
pub proof fn lemma_lex_pairs(st0: LexState, pairs: Seq<(Seq<char>, Json)>)
    requires
        !st0.in_string,
        !st0.escape,
        st0.curr.len() == 0,
        wf_pairs(pairs),
    ensures
        lex_run(st0, ser_pairs(pairs)) == Ok::<_, TokenizeError>(
            lex_after(st0, pairs_toks(pairs), Seq::empty()),
        ),
    decreases pairs, 1int,
{
    if pairs.len() == 0 {
        assert(st0.tokens + pairs_toks(pairs) =~= st0.tokens);
        assert(lex_after(st0, pairs_toks(pairs), Seq::empty()) == st0) by {
            assert(st0.curr =~= Seq::<char>::empty());
        }
    } else {
        let p = pairs.drop_last();
        let kv = pairs.last();
        lemma_lex_pairs(st0, p);
        lemma_pairs_toks_push(p, kv);
        assert(p.push(kv) =~= pairs);
        lemma_lex_run_concat(st0, ser_pairs(p), ser_pair(kv));
        let mid = lex_after(st0, pairs_toks(p), Seq::empty());
        reveal_strlit("    ");
        reveal_strlit(": ");
        reveal_strlit(",\n");
        assert("    "@ =~= seq![' ', ' ', ' ', ' ']);
        assert(": "@ =~= seq![':'] + seq![' ']);
        assert(",\n"@ =~= seq![','] + seq!['\n']);
        lemma_lex_run_concat(mid, "    "@ + quote_text(kv.0) + ": "@ + ser_spec(kv.1), ",\n"@);
        lemma_lex_run_concat(mid, "    "@ + quote_text(kv.0) + ": "@, ser_spec(kv.1));
        lemma_lex_run_concat(mid, "    "@ + quote_text(kv.0), ": "@);
        lemma_lex_run_concat(mid, "    "@, quote_text(kv.0));
        lemma_lex_blank(mid, "    "@);
        lemma_lex_quote(mid, kv.0);
        let keyed = lex_after(mid, str_toks(kv.0), Seq::empty());
        lemma_lex_run_concat(keyed, seq![':'], seq![' ']);
        lemma_lex_one(keyed, ':');
        let coloned = lex_after(keyed, seq![seq![':']], Seq::empty());
        assert(lex_step(keyed, ':') == Ok::<_, TokenizeError>(coloned)) by {
            assert(lex_flush(keyed).curr =~= keyed.curr);
            assert(lex_flush(keyed) == keyed);
            assert(keyed.tokens.push(seq![':']) =~= coloned.tokens);
        }
        lemma_lex_one(coloned, ' ');
        assert(lex_step(coloned, ' ') == Ok::<_, TokenizeError>(coloned)) by {
            assert(lex_flush(coloned).curr =~= coloned.curr);
            assert(lex_flush(coloned) == coloned);
        }
        assert(lex_run(mid, "    "@ + quote_text(kv.0) + ": "@) == Ok::<_, TokenizeError>(
            coloned,
        )) by {
            assert("    "@ + quote_text(kv.0) + ": "@ =~= ("    "@ + quote_text(kv.0)) + ": "@);
        }
        lemma_lex_ser(coloned, kv.1);
        let done = lex_after(coloned, emitted_of(kv.1), pend_of(kv.1));
        lemma_lex_run_concat(done, seq![','], seq!['\n']);
        lemma_lex_one(done, ',');
        let flushed = lex_after(
            st0,
            pairs_toks(p) + str_toks(kv.0) + seq![seq![':']] + full_toks(kv.1) + seq![seq![',']],
            Seq::empty(),
        );
        assert(lex_step(done, ',') == Ok::<_, TokenizeError>(flushed)) by {
            assert(lex_flush(done).tokens.push(seq![',']) =~= flushed.tokens);
        }
        lemma_lex_one(flushed, '\n');
        assert(lex_step(flushed, '\n') == Ok::<_, TokenizeError>(flushed)) by {
            assert(lex_flush(flushed).curr =~= flushed.curr);
            assert(lex_flush(flushed) == flushed);
        }
        assert(lex_run(mid, ser_pair(kv)) == Ok::<_, TokenizeError>(flushed)) by {
            assert(ser_pair(kv) =~= (("    "@ + quote_text(kv.0) + ": "@) + ser_spec(kv.1))
                + ",\n"@);
        }
        assert(flushed == lex_after(st0, pairs_toks(pairs), Seq::empty())) by {
            assert(pairs_toks(p) + str_toks(kv.0) + seq![seq![':']] + full_toks(kv.1)
                + seq![seq![',']] =~= pairs_toks(pairs));
        }
    }
}

/// Tokenizing a rendered tree yields exactly the tree's tokens.
pub proof fn lemma_tokenize_ser(v: Json)
    requires
        wf_json(v),
    ensures
        tokenize_spec(ser_spec(v)) == Ok::<_, TokenizeError>(full_toks(v)),
{
    let st0 = lex_init();
    lemma_lex_ser(st0, v);
    let fin = lex_after(st0, emitted_of(v), pend_of(v));
    assert(fin.tokens =~= emitted_of(v));
    assert(lex_finish(fin) == Ok::<_, TokenizeError>(lex_flush(fin).tokens));
    if pend_of(v).len() > 0 {
        assert(lex_flush(fin).tokens =~= emitted_of(v) + pend_toks(v));
    } else {
        assert(lex_flush(fin).tokens =~= emitted_of(v) + pend_toks(v));
    }
}

/// A well-formed element list is a well-formed head and a well-formed
/// tail.
pub proof fn lemma_wf_elems_uncons(elems: Seq<Json>)
    requires
        wf_elems(elems),
        elems.len() > 0,
    ensures
        wf_json(elems.first()),
        wf_elems(elems.drop_first()),
    decreases elems.len(),
{
    if elems.len() == 1 {
        assert(elems.first() == elems.last());
        assert(elems.drop_first() =~= Seq::<Json>::empty());
    } else {
        let p = elems.drop_last();
        lemma_wf_elems_uncons(p);
        assert(p.first() == elems.first());
        assert(elems.drop_first() =~= p.drop_first().push(elems.last()));
        assert(elems.drop_first().drop_last() =~= p.drop_first());
        assert(elems.drop_first().last() == elems.last());
    }
}

/// A well-formed pair list is a well-formed head and a well-formed
/// tail.
pub proof fn lemma_wf_pairs_uncons(pairs: Seq<(Seq<char>, Json)>)
    requires
        wf_pairs(pairs),
        pairs.len() > 0,
    ensures
        wf_json(pairs.first().1),
        wf_pairs(pairs.drop_first()),
    decreases pairs.len(),
{
    if pairs.len() == 1 {
        assert(pairs.first() == pairs.last());
        assert(pairs.drop_first() =~= Seq::<(Seq<char>, Json)>::empty());
    } else {
        let p = pairs.drop_last();
        lemma_wf_pairs_uncons(p);
        assert(p.first() == pairs.first());
        assert(pairs.drop_first() =~= p.drop_first().push(pairs.last()));
        assert(pairs.drop_first().drop_last() =~= p.drop_first());
        assert(pairs.drop_first().last() == pairs.last());
    }
}

/// Writing pairs whose keys are all new appends them unchanged.
pub proof fn lemma_dedup_from_app(acc: Seq<(Seq<char>, Json)>, s: Seq<(Seq<char>, Json)>)
    requires
        uniq_keys(acc + s),
    ensures
        dedup_from(acc, s) == acc + s,
    decreases s.len(),
{
    if s.len() == 0 {
        assert(acc + s =~= acc);
    } else {
        let k = s[0].0;
        lemma_find_key_props(acc, k);
        assert(find_key(acc, k) == -1) by {
            let fk = find_key(acc, k);
            if fk != -1 {
                assert((acc + s)[fk] == acc[fk]);
                assert((acc + s)[acc.len() as int] == s[0]);
            }
        }
        assert(upsert(acc, s[0].0, s[0].1) == acc.push(s[0]));
        assert(acc.push(s[0]) + s.drop_first() =~= acc + s);
        lemma_dedup_from_app(acc.push(s[0]), s.drop_first());
    }
}

/// A pair list with unique keys comes out of last-write-wins
/// deduplication unchanged.
pub proof fn lemma_dedup_uniq(pairs: Seq<(Seq<char>, Json)>)
    requires
        uniq_keys(pairs),
    ensures
        dedup_keys(pairs) == pairs,
{
    assert(Seq::<(Seq<char>, Json)>::empty() + pairs =~= pairs);
    lemma_dedup_from_app(Seq::empty(), pairs);
}

/// The single-character and keyword tokens, written out.
pub proof fn lemma_tok_lits()
    ensures
        "{"@ == seq!['{'],
        "}"@ == seq!['}'],
        "["@ == seq!['['],
        "]"@ == seq![']'],
        ":"@ == seq![':'],
        ","@ == seq![','],
        "\""@ == seq!['"'],
        "e"@ == seq!['e'],
        "E"@ == seq!['E'],
        "-"@ == seq!['-'],
        "+"@ == seq!['+'],
        "true"@ == seq!['t', 'r', 'u', 'e'],
        "false"@ == seq!['f', 'a', 'l', 's', 'e'],
        "null"@ == seq!['n', 'u', 'l', 'l'],
{
    reveal_strlit("{");
    reveal_strlit("}");
    reveal_strlit("[");
    reveal_strlit("]");
    reveal_strlit(":");
    reveal_strlit(",");
    reveal_strlit("\"");
    reveal_strlit("e");
    reveal_strlit("E");
    reveal_strlit("-");
    reveal_strlit("+");
    reveal_strlit("true");
    reveal_strlit("false");
    reveal_strlit("null");
    assert("{"@ =~= seq!['{']);
    assert("}"@ =~= seq!['}']);
    assert("["@ =~= seq!['[']);
    assert("]"@ =~= seq![']']);
    assert(":"@ =~= seq![':']);
    assert(","@ =~= seq![',']);
    assert("\""@ =~= seq!['"']);
    assert("e"@ =~= seq!['e']);
    assert("E"@ =~= seq!['E']);
    assert("-"@ =~= seq!['-']);
    assert("+"@ =~= seq!['+']);
    assert("true"@ =~= seq!['t', 'r', 'u', 'e']);
    assert("false"@ =~= seq!['f', 'a', 'l', 's', 'e']);
    assert("null"@ =~= seq!['n', 'u', 'l', 'l']);
}

/// Two one-character runs with different characters differ.
pub proof fn lemma_single_ne(a: char, b: char)
    requires
        a != b,
    ensures
        seq![a] != seq![b],
{
    assert(seq![a][0] == a);
    assert(seq![b][0] == b);
    if seq![a] == seq![b] {
        assert(a == b);
    }
}

/// Two runs of different lengths differ.
pub proof fn lemma_len_ne(s1: Seq<char>, s2: Seq<char>)
    requires
        s1.len() != s2.len(),
    ensures
        s1 != s2,
{
    if s1 == s2 {
        assert(s1.len() == s2.len());
    }
}

/// A rendered value's first token opens the value: never a separator or
/// a closing bracket.
pub proof fn lemma_first_tok(v: Json)
    requires
        wf_json(v),
    ensures
        full_toks(v).len() > 0,
        full_toks(v)[0] != "]"@,
        full_toks(v)[0] != "}"@,
        full_toks(v)[0] != ","@,
    decreases v,
{
    lemma_tok_lits();
    match v {
        Json::Obj(pairs) => {
            assert(full_toks(v)[0] == seq!['{']);
            lemma_single_ne('{', ']');
            lemma_single_ne('{', '}');
            lemma_single_ne('{', ',');
        },
        Json::Arr(elems) => {
            assert(full_toks(v)[0] == seq!['[']);
            lemma_single_ne('[', ']');
            lemma_single_ne('[', '}');
            lemma_single_ne('[', ',');
        },
        Json::Str(s) => {
            assert(full_toks(v)[0] == seq!['"']);
            lemma_single_ne('"', ']');
            lemma_single_ne('"', '}');
            lemma_single_ne('"', ',');
        },
        Json::Num(t) => {
            lemma_lex_number(lex_init(), t);
            let m = marker_idx(t);
            let first = full_toks(v)[0];
            if m == -1 {
                assert(first == t);
                assert(plain_num(t[0]));
            } else {
                assert(first == t.take(m));
                assert(plain_num(t.take(m)[0]));
            }
            assert(first != "]"@ && first != "}"@ && first != ","@) by {
                if first == "]"@ || first == "}"@ || first == ","@ {
                    assert(!plain_num(first[0]));
                }
            }
        },
        Json::Bool(b) => {
            if b {
                assert(full_toks(v)[0] == "true"@);
                lemma_len_ne("true"@, "]"@);
                lemma_len_ne("true"@, "}"@);
                lemma_len_ne("true"@, ","@);
            } else {
                assert(full_toks(v)[0] == "false"@);
                lemma_len_ne("false"@, "]"@);
                lemma_len_ne("false"@, "}"@);
                lemma_len_ne("false"@, ","@);
            }
        },
        Json::Null => {
            assert(full_toks(v)[0] == "null"@);
            lemma_len_ne("null"@, "]"@);
            lemma_len_ne("null"@, "}"@);
            lemma_len_ne("null"@, ","@);
        },
    }
}

/// One token of a piece that a range of the token sequence equals.
pub proof fn lemma_at(toks: Seq<Seq<char>>, c: int, piece: Seq<Seq<char>>, k: int)
    requires
        0 <= c,
        0 <= k < piece.len(),
        c + piece.len() <= toks.len(),
        toks.subrange(c, c + piece.len()) == piece,
    ensures
        toks[c + k] == piece[k],
{
    assert(toks.subrange(c, c + piece.len() as int)[k] == toks[c + k]);
}

/// Whether the token at `j`, if there is one, may directly follow a
/// complete value: a separating comma or a closing bracket.
pub open spec fn sep_ok(toks: Seq<Seq<char>>, j: int) -> bool {
    j >= toks.len() || toks[j] == ","@ || toks[j] == "]"@ || toks[j] == "}"@
}

/// Parsing from a rendered value's tokens rebuilds exactly that value,
/// provided what follows may follow a value.
#[verifier::rlimit(100)]
pub proof fn lemma_parse_full(v: Json, toks: Seq<Seq<char>>, c: int)
    requires
        wf_json(v),
        0 <= c,
        c + full_toks(v).len() <= toks.len(),
        toks.subrange(c, c + full_toks(v).len()) == full_toks(v),
        sep_ok(toks, c + full_toks(v).len()),
    ensures
        parse_value_spec(toks, c) == Ok::<_, ParseError>((v, c + full_toks(v).len())),
    decreases v, 0int,
{
    lemma_tok_lits();
    let ft = full_toks(v);
    let big = ft.len() as int;
    assert forall|k: int| 0 <= k < big implies toks[c + k] == ft[k] by {
        assert(toks.subrange(c, c + big)[k] == toks[c + k]);
    }
    match v {
        Json::Obj(pairs) => {
            assert(ft =~= seq![seq!['{']] + pairs_toks(pairs) + seq![seq!['}']]);
            lemma_at(toks, c, ft, 0);
            assert(ft[0] == seq!['{']);
            assert(toks[c] == seq!['{']);
            let plen = pairs_toks(pairs).len() as int + 1;
            assert(big == 1 + plen);
            assert(toks.subrange(c + 1, c + 1 + plen) =~= pairs_toks(pairs).push(seq!['}'])) by {
                assert(forall|k: int|
                    0 <= k < plen ==> #[trigger] toks.subrange(c + 1, c + 1 + plen)[k] == toks[c + 1
                        + k]);
                assert(forall|k: int|
                    0 <= k < plen ==> #[trigger] pairs_toks(pairs).push(seq!['}'])[k] == ft[1 + k]);
            }
            lemma_parse_membs(pairs, toks, c + 1);
            lemma_dedup_uniq(pairs);
        },
        Json::Arr(elems) => {
            assert(ft =~= seq![seq!['[']] + items_toks(elems) + seq![seq![']']]);
            lemma_at(toks, c, ft, 0);
            assert(ft[0] == seq!['[']);
            assert(toks[c] == seq!['[']);
            lemma_single_ne('[', '{');
            let ilen = items_toks(elems).len() as int + 1;
            assert(big == 1 + ilen);
            assert(toks.subrange(c + 1, c + 1 + ilen) =~= items_toks(elems).push(seq![']'])) by {
                assert(forall|k: int|
                    0 <= k < ilen ==> #[trigger] toks.subrange(c + 1, c + 1 + ilen)[k] == toks[c + 1
                        + k]);
                assert(forall|k: int|
                    0 <= k < ilen ==> #[trigger] items_toks(elems).push(seq![']'])[k] == ft[1 + k]);
            }
            lemma_parse_elems(elems, toks, c + 1);
        },
        Json::Str(s) => {
            assert(ft =~= str_toks(s));
            lemma_at(toks, c, ft, 0);
            assert(toks[c] == seq!['"']);
            lemma_single_ne('"', '{');
            lemma_single_ne('"', '[');
            if s.len() > 0 {
                lemma_at(toks, c, ft, 1);
                lemma_at(toks, c, ft, 2);
                assert(toks[c + 1] == s);
                assert(toks[c + 2] == seq!['"']);
            } else {
                lemma_at(toks, c, ft, 1);
                assert(toks[c + 1] == seq!['"']);
                lemma_single_ne(',', '"');
                lemma_single_ne(']', '"');
                lemma_single_ne('}', '"');
                if c + 2 < toks.len() {
                    assert(toks[c + 2] != "\""@);
                }
                assert(parse_string_spec(toks, c + 1) == Ok::<_, ParseError>(
                    (Seq::<char>::empty(), c + 2),
                ));
                assert(s =~= Seq::<char>::empty());
            }
        },
        Json::Bool(b) => {
            let w = if b {
                "true"@
            } else {
                "false"@
            };
            assert(ft =~= seq![w]);
            lemma_at(toks, c, ft, 0);
            assert(toks[c] == w);
            lemma_len_ne(w, "{"@);
            lemma_len_ne(w, "["@);
            lemma_len_ne(w, "\""@);
            if !b {
                lemma_len_ne("false"@, "true"@);
            }
        },
        Json::Null => {
            assert(ft =~= seq!["null"@]);
            lemma_at(toks, c, ft, 0);
            assert(toks[c] == "null"@);
            lemma_len_ne("null"@, "{"@);
            lemma_len_ne("null"@, "["@);
            lemma_len_ne("null"@, "\""@);
            assert("null"@ != "true"@) by {
                assert("null"@[0] == 'n');
                assert("true"@[0] == 't');
            }
            lemma_len_ne("null"@, "false"@);
        },
        Json::Num(t) => {
            lemma_lex_number(lex_init(), t);
            let m = marker_idx(t);
            lemma_at(toks, c, ft, 0);
            let first = toks[c];
            if m == -1 {
                assert(ft =~= seq![t]);
                assert(first == t);
            } else {
                assert(ft =~= seq![t.take(m), seq![t[m]], t.skip(m + 1)]);
                assert(first == t.take(m));
            }
            assert(first.len() > 0 && plain_num(first[0]));
            assert(first != "{"@ && first != "["@ && first != "\""@ && first != "true"@ && first
                != "false"@ && first != "null"@) by {
                if first == "{"@ {
                    assert(first[0] == '{');
                }
                if first == "["@ {
                    assert(first[0] == '[');
                }
                if first == "\""@ {
                    assert(first[0] == '"');
                }
                if first == "true"@ {
                    assert(first[0] == 't');
                }
                if first == "false"@ {
                    assert(first[0] == 'f');
                }
                if first == "null"@ {
                    assert(first[0] == 'n');
                }
            }
            assert(first != "-"@ && first != "+"@) by {
                if first == "-"@ || first == "+"@ {
                    assert(first.len() == 1);
                    assert(is_sign(first[0]));
                    let w = if m == -1 {
                        t
                    } else {
                        t.take(m)
                    };
                    assert(w =~= seq![first[0]]);
                    assert(w.drop_last() =~= Seq::<char>::empty());
                    assert(num_run(NumState::Start, w.drop_last()) == NumState::Start);
                    assert(num_run(NumState::Start, w) == NumState::AfterSign);
                }
            }
            if m == -1 {
                if c + 1 < toks.len() {
                    assert(toks[c + 1] == ","@ || toks[c + 1] == "]"@ || toks[c + 1] == "}"@);
                    lemma_single_ne(',', 'e');
                    lemma_single_ne(',', 'E');
                    lemma_single_ne(']', 'e');
                    lemma_single_ne(']', 'E');
                    lemma_single_ne('}', 'e');
                    lemma_single_ne('}', 'E');
                }
                assert(parse_number_spec(toks, c) == Ok::<_, ParseError>((t, c + 1)));
            } else {
                lemma_at(toks, c, ft, 1);
                lemma_at(toks, c, ft, 2);
                assert(toks[c + 1] == seq![t[m]]);
                assert(toks[c + 1] == "e"@ || toks[c + 1] == "E"@) by {
                    if t[m] == 'e' {
                        assert(seq![t[m]] =~= "e"@);
                    } else {
                        assert(seq![t[m]] =~= "E"@);
                    }
                }
                assert(toks[c + 2] == t.skip(m + 1));
                assert(t.take(m) + seq![t[m]] + t.skip(m + 1) =~= t);
                assert(parse_number_spec(toks, c) == Ok::<_, ParseError>((t, c + 3)));
            }
        },
    }
}

/// Parsing from an array's entry tokens, closing bracket included,
/// rebuilds exactly the entries.
pub proof fn lemma_parse_elems(elems: Seq<Json>, toks: Seq<Seq<char>>, c: int)
    requires
        wf_elems(elems),
        0 <= c,
        c + items_toks(elems).len() + 1 <= toks.len(),
        toks.subrange(c, c + items_toks(elems).len() + 1) == items_toks(elems).push(seq![']']),
    ensures
        parse_elements_spec(toks, c) == Ok::<_, ParseError>(
            (elems, c + items_toks(elems).len() + 1),
        ),
    decreases elems, 1int,
{
    lemma_tok_lits();
    let it = items_toks(elems).push(seq![']']);
    let ilen = it.len() as int;
    assert forall|k: int| 0 <= k < ilen implies toks[c + k] == it[k] by {
        assert(toks.subrange(c, c + ilen)[k] == toks[c + k]);
    }
    if elems.len() == 0 {
        assert(items_toks(elems) =~= Seq::<Seq<char>>::empty());
        lemma_at(toks, c, it, 0);
        assert(toks[c] == seq![']']);
        assert(Seq::<Json>::empty() =~= elems);
    } else {
        let e0 = elems.first();
        let rest = elems.drop_first();
        lemma_wf_elems_uncons(elems);
        lemma_first_tok(e0);
        assert(items_toks(elems) == full_toks(e0) + seq![seq![',']] + items_toks(rest));
        let ln0 = full_toks(e0).len() as int;
        assert(forall|k: int| 0 <= k < ln0 ==> it[k] == #[trigger] full_toks(e0)[k]);
        lemma_at(toks, c, it, 0);
        assert(toks[c] == full_toks(e0)[0]);
        lemma_at(toks, c, it, ln0);
        assert(it[ln0] == seq![',']);
        assert(toks[c + ln0] == seq![',']);
        assert(toks.subrange(c, c + ln0) =~= full_toks(e0)) by {
            assert(forall|k: int|
                0 <= k < ln0 ==> #[trigger] toks.subrange(c, c + ln0)[k] == toks[c + k]);
        }
        assert(sep_ok(toks, c + ln0)) by {
            assert(toks[c + ln0] == ","@);
        }
        lemma_parse_full(e0, toks, c);
        lemma_parse_value_advances(toks, c);
        assert(bump(c + ln0, c) == c + ln0);
        let cn = c + ln0 + 1;
        let rlen = items_toks(rest).len() as int;
        assert(toks.subrange(cn, cn + rlen + 1) =~= items_toks(rest).push(seq![']'])) by {
            assert(forall|k: int|
                0 <= k < rlen + 1 ==> #[trigger] toks.subrange(cn, cn + rlen + 1)[k] == toks[cn
                    + k]);
            assert(forall|k: int|
                0 <= k < rlen + 1 ==> #[trigger] items_toks(rest).push(seq![']'])[k] == it[ln0 + 1
                    + k]);
        }
        lemma_parse_elems(rest, toks, cn);
        assert(seq![e0] + rest =~= elems);
    }
}

/// Parsing from an object's entry tokens, closing brace included,
/// rebuilds exactly the entries, in order and with their duplicates —
/// a rendered object has none.
#[verifier::rlimit(100)]
pub proof fn lemma_parse_membs(pairs: Seq<(Seq<char>, Json)>, toks: Seq<Seq<char>>, c: int)
    requires
        wf_pairs(pairs),
        0 <= c,
        c + pairs_toks(pairs).len() + 1 <= toks.len(),
        toks.subrange(c, c + pairs_toks(pairs).len() + 1) == pairs_toks(pairs).push(seq!['}']),
    ensures
        parse_members_spec(toks, c) == Ok::<_, ParseError>(
            (pairs, c + pairs_toks(pairs).len() + 1),
        ),
    decreases pairs, 1int,
{
    lemma_tok_lits();
    let it = pairs_toks(pairs).push(seq!['}']);
    let plen = it.len() as int;
    assert forall|k: int| 0 <= k < plen implies toks[c + k] == it[k] by {
        assert(toks.subrange(c, c + plen)[k] == toks[c + k]);
    }
    if pairs.len() == 0 {
        assert(pairs_toks(pairs) =~= Seq::<Seq<char>>::empty());
        lemma_at(toks, c, it, 0);
        assert(toks[c] == seq!['}']);
        assert(Seq::<(Seq<char>, Json)>::empty() =~= pairs);
    } else {
        let kv0 = pairs.first();
        let rest = pairs.drop_first();
        lemma_wf_pairs_uncons(pairs);
        assert(pairs_toks(pairs) == str_toks(kv0.0) + seq![seq![':']] + full_toks(kv0.1)
            + seq![seq![',']] + pairs_toks(rest));
        let klen = str_toks(kv0.0).len() as int;
        let vlen = full_toks(kv0.1).len() as int;
        assert(forall|k: int| 0 <= k < klen ==> it[k] == #[trigger] str_toks(kv0.0)[k]);
        assert(it[klen] == seq![':']);
        assert(forall|k: int|
            0 <= k < vlen ==> it[klen + 1 + k] == #[trigger] full_toks(kv0.1)[k]);
        assert(it[klen + 1 + vlen] == seq![',']);
        lemma_at(toks, c, it, 0);
        assert(toks[c] == seq!['"']);
        lemma_at(toks, c, it, klen);
        assert(toks[c + klen] == seq![':']);
        lemma_at(toks, c, it, klen + 1 + vlen);
        assert(toks[c + klen + 1 + vlen] == seq![',']);
        lemma_single_ne('"', '}');
        let key: Seq<char> = if kv0.0.len() > 0 {
            kv0.0
        } else {
            Seq::empty()
        };
        if kv0.0.len() > 0 {
            lemma_at(toks, c, it, 1);
            lemma_at(toks, c, it, 2);
            assert(toks[c + 1] == kv0.0);
            assert(toks[c + 2] == seq!['"']);
            assert(parse_string_spec(toks, c + 1) == Ok::<_, ParseError>((kv0.0, c + 3)));
        } else {
            lemma_at(toks, c, it, 1);
            lemma_at(toks, c, it, 2);
            assert(toks[c + 1] == seq!['"']);
            lemma_single_ne(':', '"');
            assert(toks[c + 2] == seq![':']);
            assert(parse_string_spec(toks, c + 1) == Ok::<_, ParseError>(
                (Seq::<char>::empty(), c + 2),
            ));
            assert(key =~= kv0.0);
        }
        let ck = c + klen;
        assert(bump(ck, c) == ck);
        assert(toks[ck] == ":"@);
        let cv_start = ck + 1;
        assert(toks.subrange(cv_start, cv_start + vlen) =~= full_toks(kv0.1)) by {
            assert(forall|k: int|
                0 <= k < vlen ==> #[trigger] toks.subrange(cv_start, cv_start + vlen)[k]
                    == toks[cv_start + k]);
        }
        assert(sep_ok(toks, cv_start + vlen)) by {
            assert(toks[cv_start + vlen] == ","@);
        }
        lemma_parse_full(kv0.1, toks, cv_start);
        lemma_parse_value_advances(toks, cv_start);
        let cv = cv_start + vlen;
        assert(bump(cv, cv_start) == cv);
        assert(toks[cv] == ","@);
        let cn = cv + 1;
        let rlen = pairs_toks(rest).len() as int;
        assert(toks.subrange(cn, cn + rlen + 1) =~= pairs_toks(rest).push(seq!['}'])) by {
            assert(forall|k: int|
                0 <= k < rlen + 1 ==> #[trigger] toks.subrange(cn, cn + rlen + 1)[k] == toks[cn
                    + k]);
            assert(forall|k: int|
                0 <= k < rlen + 1 ==> #[trigger] pairs_toks(rest).push(seq!['}'])[k] == it[klen + 1
                    + vlen + 1 + k]);
        }
        lemma_parse_membs(rest, toks, cn);
        assert((key, kv0.1) == kv0);
        assert(seq![kv0] + rest =~= pairs);
    }
}

/// An element list is well formed exactly when each element is.
pub proof fn lemma_wf_elems_index(elems: Seq<Json>)
    ensures
        wf_elems(elems) <==> (forall|i: int|
            0 <= i < elems.len() ==> wf_json(#[trigger] elems[i])),
    decreases elems.len(),
{
    if elems.len() > 0 {
        lemma_wf_elems_index(elems.drop_last());
        assert(forall|i: int|
            0 <= i < elems.len() - 1 ==> #[trigger] elems[i] == elems.drop_last()[i]);
        assert(elems[elems.len() - 1] == elems.last());
    }
}

/// A pair list is well formed exactly when each value is.
pub proof fn lemma_wf_pairs_index(pairs: Seq<(Seq<char>, Json)>)
    ensures
        wf_pairs(pairs) <==> (forall|i: int|
            0 <= i < pairs.len() ==> wf_json((#[trigger] pairs[i]).1)),
    decreases pairs.len(),
{
    if pairs.len() > 0 {
        lemma_wf_pairs_index(pairs.drop_last());
        assert(forall|i: int|
            0 <= i < pairs.len() - 1 ==> #[trigger] pairs[i] == pairs.drop_last()[i]);
        assert(pairs[pairs.len() - 1] == pairs.last());
    }
}

/// Writing pairs with well-formed values into a unique-keyed,
/// well-formed list keeps it unique-keyed and well formed.
pub proof fn lemma_dedup_from_wf(acc: Seq<(Seq<char>, Json)>, s: Seq<(Seq<char>, Json)>)
    requires
        uniq_keys(acc),
        wf_pairs(acc),
        wf_pairs(s),
    ensures
        uniq_keys(dedup_from(acc, s)),
        wf_pairs(dedup_from(acc, s)),
    decreases s.len(),
{
    if s.len() > 0 {
        let k = s[0].0;
        let v = s[0].1;
        lemma_wf_pairs_index(s);
        assert(wf_json(v));
        lemma_find_key_props(acc, k);
        lemma_wf_pairs_index(acc);
        let up = upsert(acc, k, v);
        let fk = find_key(acc, k);
        if fk == -1 {
            assert(up == acc.push((k, v)));
            assert(uniq_keys(up)) by {
                assert(forall|i: int| 0 <= i < acc.len() ==> #[trigger] up[i] == acc[i]);
                assert(up[acc.len() as int] == (k, v));
            }
            lemma_wf_pairs_index(up);
            assert(wf_pairs(up)) by {
                assert(forall|i: int| 0 <= i < acc.len() ==> #[trigger] up[i] == acc[i]);
                assert(up[acc.len() as int] == (k, v));
            }
        } else {
            assert(up == acc.update(fk, (k, v)));
            assert(uniq_keys(up)) by {
                assert(forall|i: int|
                    0 <= i < acc.len() ==> (#[trigger] up[i]).0 == acc[i].0) by {
                    assert(acc[fk].0 == k);
                }
            }
            lemma_wf_pairs_index(up);
            assert(wf_pairs(up)) by {
                assert(forall|i: int| 0 <= i < acc.len() && i != fk ==> #[trigger] up[i] == acc[i]);
                assert(up[fk] == (k, v));
            }
        }
        lemma_wf_pairs_index(s.drop_first());
        assert(wf_pairs(s.drop_first())) by {
            assert(forall|i: int|
                0 <= i < s.len() - 1 ==> #[trigger] s.drop_first()[i] == s[i + 1]);
        }
        lemma_dedup_from_wf(up, s.drop_first());
    }
}

/// Every tree a successful value parse yields is well formed: its
/// number texts satisfy the number grammar and its objects' keys are
/// unique.
pub proof fn lemma_parse_value_wf(toks: Seq<Seq<char>>, c: int)
    ensures
        parse_value_spec(toks, c) matches Ok((v, c2)) ==> wf_json(v),
    decreases toks.len() - c, 1int,
{
    if 0 <= c < toks.len() {
        let t = toks[c];
        if t == "{"@ {
            lemma_parse_members_wf(toks, c + 1);
            match parse_members_spec(toks, c + 1) {
                Ok((pairs, c2)) => {
                    assert(uniq_keys(Seq::<(Seq<char>, Json)>::empty()));
                    assert(wf_pairs(Seq::<(Seq<char>, Json)>::empty()));
                    lemma_dedup_from_wf(Seq::empty(), pairs);
                },
                Err(e) => {},
            }
        } else if t == "["@ {
            lemma_parse_elements_wf(toks, c + 1);
        }
    }
}

/// Every pair list a successful member parse yields holds only
/// well-formed values.
pub proof fn lemma_parse_members_wf(toks: Seq<Seq<char>>, c: int)
    ensures
        parse_members_spec(toks, c) matches Ok((pairs, c2)) ==> wf_pairs(pairs),
    decreases toks.len() - c, 2int,
{
    if 0 <= c < toks.len() && toks[c] != "}"@ && toks[c] == "\""@ {
        match parse_string_spec(toks, c + 1) {
            Ok((key, ck0)) => {
                let ck = bump(ck0, c);
                if ck < toks.len() && toks[ck] == ":"@ {
                    lemma_parse_value_wf(toks, ck + 1);
                    lemma_parse_value_advances(toks, ck + 1);
                    match parse_value_spec(toks, ck + 1) {
                        Ok((val, cv0)) => {
                            let cv = bump(cv0, ck + 1);
                            if cv < toks.len() && toks[cv] == ","@ {
                                lemma_parse_members_wf(toks, cv + 1);
                                match parse_members_spec(toks, cv + 1) {
                                    Ok((rest, ce)) => {
                                        let all = seq![(key, val)] + rest;
                                        lemma_wf_pairs_index(rest);
                                        lemma_wf_pairs_index(all);
                                        assert(wf_pairs(all)) by {
                                            assert(all[0] == (key, val));
                                            assert(forall|i: int|
                                                0 < i < all.len() ==> #[trigger] all[i] == rest[i
                                                    - 1]);
                                        }
                                    },
                                    Err(e) => {},
                                }
                            } else if cv < toks.len() && toks[cv] == "}"@ {
                                let all = seq![(key, val)];
                                lemma_wf_pairs_index(all);
                                assert(all[0] == (key, val));
                            }
                        },
                        Err(e) => {},
                    }
                }
            },
            Err(e) => {},
        }
    }
}

/// Every element list a successful element parse yields holds only
/// well-formed elements.
pub proof fn lemma_parse_elements_wf(toks: Seq<Seq<char>>, c: int)
    ensures
        parse_elements_spec(toks, c) matches Ok((elems, c2)) ==> wf_elems(elems),
    decreases toks.len() - c, 2int,
{
    if 0 <= c < toks.len() && toks[c] != "]"@ {
        lemma_parse_value_wf(toks, c);
        lemma_parse_value_advances(toks, c);
        match parse_value_spec(toks, c) {
            Ok((v, cv0)) => {
                let cv = bump(cv0, c);
                if cv < toks.len() && toks[cv] == ","@ {
                    lemma_parse_elements_wf(toks, cv + 1);
                    match parse_elements_spec(toks, cv + 1) {
                        Ok((rest, ce)) => {
                            let all = seq![v] + rest;
                            lemma_wf_elems_index(rest);
                            lemma_wf_elems_index(all);
                            assert(wf_elems(all)) by {
                                assert(all[0] == v);
                                assert(forall|i: int|
                                    0 < i < all.len() ==> #[trigger] all[i] == rest[i - 1]);
                            }
                        },
                        Err(e) => {},
                    }
                } else if cv < toks.len() && toks[cv] == "]"@ {
                    let all = seq![v];
                    lemma_wf_elems_index(all);
                    assert(all[0] == v);
                }
            },
            Err(e) => {},
        }
    }
}

/// Every tree a successful whole-document parse yields is well formed.
pub proof fn lemma_parse_json_wf(s: Seq<char>)
    ensures
        parse_json_spec(s) matches Ok(v) ==> wf_json(v),
{
    match tokenize_spec(s) {
        Ok(toks) => {
            lemma_parse_value_wf(toks, 0);
        },
        Err(e) => {},
    }
}

/// Parsing a serialized tree reproduces the tree: for every value tree
/// the parser can produce — number texts well formed, object keys
/// unique — rendering it and parsing the rendered text yields exactly
/// the same tree again.
pub proof fn lemma_round_trip(v: Json)
    requires
        wf_json(v),
    ensures
        parse_json_spec(ser_spec(v)) == Ok::<Json, JsonError>(v),
{
    lemma_tokenize_ser(v);
    let toks = full_toks(v);
    lemma_first_tok(v);
    assert(toks.subrange(0, toks.len() as int) =~= toks);
    lemma_parse_full(v, toks, 0);
}

/// The round trip from any parsed document: whenever parsing a
/// document yields a tree, parsing the tree's rendered text yields the
/// same tree.
pub proof fn lemma_parse_serialize_parse(s: Seq<char>)
    ensures
        parse_json_spec(s) matches Ok(v) ==> parse_json_spec(ser_spec(v)) == Ok::<Json, JsonError>(
            v,
        ),
{
    lemma_parse_json_wf(s);
    match parse_json_spec(s) {
        Ok(v) => {
            lemma_round_trip(v);
        },
        Err(e) => {},
    }
}

} // verus!
