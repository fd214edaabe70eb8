//! The serializer: renders a value tree back to indented text.
//!
//! Objects open with `{`, hold one `    "key": value,` line per entry
//! and close with `}`; arrays are analogous with `[` and `]`; strings
//! are re-quoted with every backslash, quote and control character
//! escaped again; numbers are their kept source text; `true`, `false`
//! and `null` stand for themselves.
//!
//! The whole rendering is described by the spec function [`ser_spec`];
//! the executable [`serialize`] is proved to return exactly that text.
//! The module also defines [`wf_json`], the trees the parser can
//! produce: number texts satisfy the number grammar and object keys are
//! unique.

use vstd::prelude::*;

use crate::parser::is_number_text;
use crate::value::{jv_model_elems, jv_model_pairs, lemma_model_elems, lemma_model_pairs, Json, JsonValue};
use crate::token::{chars_to_string, string_to_chars};

verus! {

/// What one string character becomes inside quotes: backslash, quote
/// and the five named control characters get a backslash escape, any
/// other character stands as itself.
pub open spec fn escape_char(c: char) -> Seq<char> {
    if c == '\\' {
        seq!['\\', '\\']
    } else if c == '"' {
        seq!['\\', '"']
    } else if c == '\u{0008}' {
        seq!['\\', 'b']
    } else if c == '\u{000C}' {
        seq!['\\', 'f']
    } else if c == '\n' {
        seq!['\\', 'n']
    } else if c == '\r' {
        seq!['\\', 'r']
    } else if c == '\t' {
        seq!['\\', 't']
    } else {
        seq![c]
    }
}

/// A string's characters, each escaped as needed.
pub open spec fn escape_text(s: Seq<char>) -> Seq<char>
    decreases s.len(),
{
    if s.len() == 0 {
        Seq::empty()
    } else {
        escape_text(s.drop_last()) + escape_char(s.last())
    }
}

/// A string rendered for output: quoted, with its content escaped.
pub open spec fn quote_text(s: Seq<char>) -> Seq<char> {
    "\""@ + escape_text(s) + "\""@
}

/// The text a value tree renders to.
pub open spec fn ser_spec(v: Json) -> Seq<char>
    decreases v, 0int,
{
    match v {
        Json::Obj(pairs) => "{\n"@ + ser_pairs(pairs) + "}"@,
        Json::Arr(elems) => "[\n"@ + ser_items(elems) + "]"@,
        Json::Str(s) => quote_text(s),
        Json::Num(t) => t,
        Json::Bool(b) => if b {
            "true"@
        } else {
            "false"@
        },
        Json::Null => "null"@,
    }
}

/// One array entry's line.
pub open spec fn ser_item(e: Json) -> Seq<char>
    decreases e, 1int,
{
    "    "@ + ser_spec(e) + ",\n"@
}

/// An array's entry lines, in order.
pub open spec fn ser_items(elems: Seq<Json>) -> Seq<char>
    decreases elems, 2int,
{
    if elems.len() == 0 {
        Seq::empty()
    } else {
        ser_items(elems.drop_last()) + ser_item(elems.last())
    }
}

/// One object entry's line.
pub open spec fn ser_pair(p: (Seq<char>, Json)) -> Seq<char>
    decreases p, 1int,
{
    "    "@ + quote_text(p.0) + ": "@ + ser_spec(p.1) + ",\n"@
}

/// An object's entry lines, in order.
pub open spec fn ser_pairs(pairs: Seq<(Seq<char>, Json)>) -> Seq<char>
    decreases pairs, 2int,
{
    if pairs.len() == 0 {
        Seq::empty()
    } else {
        ser_pairs(pairs.drop_last()) + ser_pair(pairs.last())
    }
}

/// No two entries hold the same key.
pub open spec fn uniq_keys(pairs: Seq<(Seq<char>, Json)>) -> bool {
    forall|i: int, j: int|
        0 <= i < j < pairs.len() ==> (#[trigger] pairs[i]).0 != (#[trigger] pairs[j]).0
}

/// The trees the parser can produce: every number text satisfies the
/// number grammar, and every object's keys are unique.
pub open spec fn wf_json(v: Json) -> bool
    decreases v,
{
    match v {
        Json::Obj(pairs) => uniq_keys(pairs) && wf_pairs(pairs),
        Json::Arr(elems) => wf_elems(elems),
        Json::Str(s) => true,
        Json::Num(t) => is_number_text(t),
        Json::Bool(b) => true,
        Json::Null => true,
    }
}

/// Every element of an array is well formed.
pub open spec fn wf_elems(elems: Seq<Json>) -> bool
    decreases elems,
{
    if elems.len() == 0 {
        true
    } else {
        wf_elems(elems.drop_last()) && wf_json(elems.last())
    }
}

/// Every value of an object is well formed.
pub open spec fn wf_pairs(pairs: Seq<(Seq<char>, Json)>) -> bool
    decreases pairs,
{
    if pairs.len() == 0 {
        true
    } else {
        wf_pairs(pairs.drop_last()) && wf_json(pairs.last().1)
    }
}

/// Renders a string for output: quoted, with every backslash, quote and
/// named control character escaped again.
fn quote_string(s: &String) -> (r: String)
    ensures
        r@ == quote_text(s@),
{
    let cs = string_to_chars(s.as_str());
    let mut out: Vec<char> = Vec::new();
    out.push('"');
    proof {
        reveal_strlit("\"");
        assert(cs@.take(0) =~= Seq::<char>::empty());
        assert(out@ =~= "\""@ + escape_text(cs@.take(0)));
    }
    let mut i: usize = 0;
    while i < cs.len()
        invariant
            i <= cs@.len(),
            cs@ == s@,
            out@ == "\""@ + escape_text(cs@.take(i as int)),
        decreases cs@.len() - i,
    {
        let c = cs[i];
        proof {
            assert(cs@.take(i + 1).drop_last() =~= cs@.take(i as int));
            assert(cs@.take(i + 1).last() == c);
        }
        if c == '\\' {
            out.push('\\');
            out.push('\\');
        } else if c == '"' {
            out.push('\\');
            out.push('"');
        } else if c == '\u{0008}' {
            out.push('\\');
            out.push('b');
        } else if c == '\u{000C}' {
            out.push('\\');
            out.push('f');
        } else if c == '\n' {
            out.push('\\');
            out.push('n');
        } else if c == '\r' {
            out.push('\\');
            out.push('r');
        } else if c == '\t' {
            out.push('\\');
            out.push('t');
        } else {
            out.push(c);
        }
        proof {
            assert(out@ =~= "\""@ + escape_text(cs@.take(i + 1)));
        }
        i = i + 1;
    }
    proof {
        assert(cs@.take(cs@.len() as int) =~= cs@);
    }
    out.push('"');
    let r = chars_to_string(&out);
    proof {
        assert(r@ =~= quote_text(s@));
    }
    r
}

/// Renders a value tree to indented text.
pub fn serialize(v: &JsonValue) -> (r: String)
    ensures
        r@ == ser_spec(v@),
    decreases v,
{
    match v {
        JsonValue::Null => String::from_str("null"),
        JsonValue::Bool(b) => {
            if *b {
                String::from_str("true")
            } else {
                String::from_str("false")
            }
        },
        JsonValue::Num(t) => t.clone(),
        JsonValue::Str(s) => quote_string(s),
        JsonValue::Arr(elems) => {
            let ghost me = jv_model_elems(elems@);
            proof {
                lemma_model_elems(elems@);
            }
            let mut out = String::from_str("[\n");
            proof {
                assert(me.take(0) =~= Seq::<Json>::empty());
                assert(out@ =~= "[\n"@ + ser_items(me.take(0)));
            }
            let mut i: usize = 0;
            while i < elems.len()
                invariant
                    *v == JsonValue::Arr(*elems),
                    i <= elems@.len(),
                    me == jv_model_elems(elems@),
                    me.len() == elems@.len(),
                    forall|j: int|
                        0 <= j < elems@.len() ==> #[trigger] me[j] == crate::value::jv_model(
                            elems@[j],
                        ),
                    out@ == "[\n"@ + ser_items(me.take(i as int)),
                decreases elems@.len() - i,
            {
                out.append("    ");
                proof {
                    assert(decreases_to!(*v => v->Arr_0));
                    assert(v->Arr_0 == *elems);
                    assert(decreases_to!(*elems => elems@));
                    assert(decreases_to!(elems@ => elems@[i as int]));
                }
                let es = serialize(&elems[i]);
                out.append(es.as_str());
                out.append(",\n");
                proof {
                    reveal_strlit("[\n");
                    reveal_strlit("    ");
                    reveal_strlit(",\n");
                    assert(me.take(i + 1).drop_last() =~= me.take(i as int));
                    assert(me.take(i + 1).last() == me[i as int]);
                    assert(ser_items(me.take(i + 1)) == ser_items(me.take(i as int)) + ser_item(
                        me[i as int],
                    ));
                    assert(out@ =~= "[\n"@ + ser_items(me.take(i + 1)));
                }
                i = i + 1;
            }
            proof {
                assert(me.take(me.len() as int) =~= me);
            }
            out.append("]");
            out
        },
        JsonValue::Obj(pairs) => {
            let ghost mp = jv_model_pairs(pairs@);
            proof {
                lemma_model_pairs(pairs@);
            }
            let mut out = String::from_str("{\n");
            proof {
                assert(mp.take(0) =~= Seq::<(Seq<char>, Json)>::empty());
                assert(out@ =~= "{\n"@ + ser_pairs(mp.take(0)));
            }
            let mut i: usize = 0;
            while i < pairs.len()
                invariant
                    *v == JsonValue::Obj(*pairs),
                    i <= pairs@.len(),
                    mp == jv_model_pairs(pairs@),
                    mp.len() == pairs@.len(),
                    forall|j: int|
                        0 <= j < pairs@.len() ==> #[trigger] mp[j] == (
                            pairs@[j].0@,
                            crate::value::jv_model(pairs@[j].1),
                        ),
                    out@ == "{\n"@ + ser_pairs(mp.take(i as int)),
                decreases pairs@.len() - i,
            {
                out.append("    ");
                let ks = quote_string(&pairs[i].0);
                out.append(ks.as_str());
                out.append(": ");
                proof {
                    assert(decreases_to!(*v => v->Obj_0));
                    assert(v->Obj_0 == *pairs);
                    assert(decreases_to!(*pairs => pairs@));
                    assert(decreases_to!(pairs@ => pairs@[i as int]));
                    assert(decreases_to!(pairs@[i as int] => pairs@[i as int].1));
                }
                let es = serialize(&pairs[i].1);
                out.append(es.as_str());
                out.append(",\n");
                proof {
                    reveal_strlit("{\n");
                    reveal_strlit("    ");
                    reveal_strlit(": ");
                    reveal_strlit(",\n");
                    assert(mp.take(i + 1).drop_last() =~= mp.take(i as int));
                    assert(mp.take(i + 1).last() == mp[i as int]);
                    assert(ser_pairs(mp.take(i + 1)) == ser_pairs(mp.take(i as int)) + ser_pair(
                        mp[i as int],
                    ));
                    assert(out@ =~= "{\n"@ + ser_pairs(mp.take(i + 1)));
                }
                i = i + 1;
            }
            proof {
                assert(mp.take(mp.len() as int) =~= mp);
            }
            out.append("}");
            out
        },
    }
}

} // verus!
