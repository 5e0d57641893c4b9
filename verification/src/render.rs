//! Rendering a tree value as JSON text.
//!
//! Two forms are offered: a compact one without any whitespace, and a
//! pretty one with two-space indentation, a newline per element and a
//! space after each object colon. Strings are escaped the usual way:
//! quote and backslash get a backslash, the common control characters
//! their short forms, and any other control character a `\u00..`
//! escape. Characters beyond the control range are written as they are.

use vstd::prelude::*;
use crate::value::{
    elems_view, fields_view, lemma_view_array, lemma_view_object, SpecValue, Value,
};

verus! {

/// One lowercase hexadecimal digit.
pub open spec fn hex_char(d: nat) -> char {
    if d == 0 {
        '0'
    } else if d == 1 {
        '1'
    } else if d == 2 {
        '2'
    } else if d == 3 {
        '3'
    } else if d == 4 {
        '4'
    } else if d == 5 {
        '5'
    } else if d == 6 {
        '6'
    } else if d == 7 {
        '7'
    } else if d == 8 {
        '8'
    } else if d == 9 {
        '9'
    } else if d == 10 {
        'a'
    } else if d == 11 {
        'b'
    } else if d == 12 {
        'c'
    } else if d == 13 {
        'd'
    } else if d == 14 {
        'e'
    } else {
        'f'
    }
}

/// The escape of one character inside a JSON string.
pub open spec fn esc_char(c: char) -> Seq<char> {
    if c == '"' {
        seq!['\\', '"']
    } else if c == '\\' {
        seq!['\\', '\\']
    } else if c == '\n' {
        seq!['\\', 'n']
    } else if c == '\r' {
        seq!['\\', 'r']
    } else if c == '\t' {
        seq!['\\', 't']
    } else if c == '\u{8}' {
        seq!['\\', 'b']
    } else if c == '\u{c}' {
        seq!['\\', 'f']
    } else if (c as u32) < 32 {
        seq!['\\', 'u', '0', '0', hex_char((c as u32 / 16) as nat), hex_char((c as u32 % 16) as nat)]
    } else {
        seq![c]
    }
}

/// A whole string escaped.
pub open spec fn esc_str(s: Seq<char>) -> Seq<char>
    decreases s.len(),
{
    if s.len() == 0 {
        Seq::empty()
    } else {
        esc_str(s.drop_last()) + esc_char(s.last())
    }
}

/// A quoted, escaped JSON string.
pub open spec fn quoted(s: Seq<char>) -> Seq<char> {
    seq!['"'] + esc_str(s) + seq!['"']
}

/// The compact rendering of a value: no whitespace at all.
pub open spec fn compact_of(v: SpecValue) -> Seq<char>
    decreases v,
{
    match v {
        SpecValue::Null => seq!['n', 'u', 'l', 'l'],
        SpecValue::Bool(b) => if b {
            seq!['t', 'r', 'u', 'e']
        } else {
            seq!['f', 'a', 'l', 's', 'e']
        },
        SpecValue::Number(t) => t,
        SpecValue::Text(s) => quoted(s),
        SpecValue::Array(a) => seq!['['] + compact_items(a) + seq![']'],
        SpecValue::Object(m) => seq!['{'] + compact_fields(m) + seq!['}'],
    }
}

/// Array elements, comma-separated.
pub open spec fn compact_items(a: Seq<SpecValue>) -> Seq<char>
    decreases a,
{
    if a.len() == 0 {
        Seq::empty()
    } else if a.len() == 1 {
        compact_of(a.last())
    } else {
        compact_items(a.drop_last()) + seq![','] + compact_of(a.last())
    }
}

/// Object fields, comma-separated, `"key":value` each.
pub open spec fn compact_fields(m: Seq<(Seq<char>, SpecValue)>) -> Seq<char>
    decreases m,
{
    if m.len() == 0 {
        Seq::empty()
    } else if m.len() == 1 {
        quoted(m.last().0) + seq![':'] + compact_of(m.last().1)
    } else {
        compact_fields(m.drop_last()) + seq![','] + quoted(m.last().0) + seq![':'] + compact_of(
            m.last().1,
        )
    }
}

/// `n` spaces.
pub open spec fn spaces(n: nat) -> Seq<char>
    decreases n,
{
    if n == 0 {
        Seq::empty()
    } else {
        spaces((n - 1) as nat).push(' ')
    }
}

/// The next indentation level; two more spaces, held below a bound no
/// real document can reach.
pub open spec fn next_indent(ind: nat) -> nat {
    if ind + 2 <= usize::MAX {
        (ind + 2) as nat
    } else {
        ind
    }
}

/// The pretty rendering of a value at an indentation level: two-space
/// indentation, one element per line, a space after each object colon,
/// empty containers kept on one line.
pub open spec fn pretty_of(v: SpecValue, ind: nat) -> Seq<char>
    decreases v,
{
    match v {
        SpecValue::Null => seq!['n', 'u', 'l', 'l'],
        SpecValue::Bool(b) => if b {
            seq!['t', 'r', 'u', 'e']
        } else {
            seq!['f', 'a', 'l', 's', 'e']
        },
        SpecValue::Number(t) => t,
        SpecValue::Text(s) => quoted(s),
        SpecValue::Array(a) => if a.len() == 0 {
            seq!['[', ']']
        } else {
            seq!['['] + pretty_items(a, next_indent(ind)) + seq!['\n'] + spaces(ind) + seq![']']
        },
        SpecValue::Object(m) => if m.len() == 0 {
            seq!['{', '}']
        } else {
            seq!['{'] + pretty_fields(m, next_indent(ind)) + seq!['\n'] + spaces(ind) + seq!['}']
        },
    }
}

/// Array elements, each on its own indented line.
pub open spec fn pretty_items(a: Seq<SpecValue>, ind: nat) -> Seq<char>
    decreases a,
{
    if a.len() == 0 {
        Seq::empty()
    } else if a.len() == 1 {
        seq!['\n'] + spaces(ind) + pretty_of(a.last(), ind)
    } else {
        pretty_items(a.drop_last(), ind) + seq![','] + seq!['\n'] + spaces(ind) + pretty_of(
            a.last(),
            ind,
        )
    }
}

/// Object fields, each on its own indented line, `"key": value`.
pub open spec fn pretty_fields(m: Seq<(Seq<char>, SpecValue)>, ind: nat) -> Seq<char>
    decreases m,
{
    if m.len() == 0 {
        Seq::empty()
    } else if m.len() == 1 {
        seq!['\n'] + spaces(ind) + quoted(m.last().0) + seq![':', ' '] + pretty_of(m.last().1, ind)
    } else {
        pretty_fields(m.drop_last(), ind) + seq![','] + seq!['\n'] + spaces(ind) + quoted(
            m.last().0,
        ) + seq![':', ' '] + pretty_of(m.last().1, ind)
    }
}

fn hex_str(d: u32) -> (r: &'static str)
    requires
        d < 16,
    ensures
        r@ =~= seq![hex_char(d as nat)],
{
    proof {
        reveal_strlit("0");
        reveal_strlit("1");
        reveal_strlit("2");
        reveal_strlit("3");
        reveal_strlit("4");
        reveal_strlit("5");
        reveal_strlit("6");
        reveal_strlit("7");
        reveal_strlit("8");
        reveal_strlit("9");
        reveal_strlit("a");
        reveal_strlit("b");
        reveal_strlit("c");
        reveal_strlit("d");
        reveal_strlit("e");
        reveal_strlit("f");
    }
    if d == 0 {
        "0"
    } else if d == 1 {
        "1"
    } else if d == 2 {
        "2"
    } else if d == 3 {
        "3"
    } else if d == 4 {
        "4"
    } else if d == 5 {
        "5"
    } else if d == 6 {
        "6"
    } else if d == 7 {
        "7"
    } else if d == 8 {
        "8"
    } else if d == 9 {
        "9"
    } else if d == 10 {
        "a"
    } else if d == 11 {
        "b"
    } else if d == 12 {
        "c"
    } else if d == 13 {
        "d"
    } else if d == 14 {
        "e"
    } else {
        "f"
    }
}

/// Appends the escaped form of `s` to `out`.
fn append_escaped(out: &mut String, s: &str)
    ensures
        final(out)@ == old(out)@ + esc_str(s@),
{
    let n = s.unicode_len();
    let mut i: usize = 0;
    proof {
        assert(esc_str(s@.subrange(0, 0)) =~= Seq::<char>::empty());
        assert(old(out)@ + Seq::<char>::empty() =~= old(out)@);
    }
    #[verifier::loop_isolation(false)]
    while i < n
        invariant
            0 <= i <= n,
            out@ == old(out)@ + esc_str(s@.subrange(0, i as int)),
        decreases n - i,
    {
        let ghost pre = esc_str(s@.subrange(0, i as int));
        let c = s.get_char(i);
        proof {
            reveal_strlit("\\\"");
            reveal_strlit("\\\\");
            reveal_strlit("\\n");
            reveal_strlit("\\r");
            reveal_strlit("\\t");
            reveal_strlit("\\b");
            reveal_strlit("\\f");
            reveal_strlit("\\u00");
        }
        if c == '"' {
            out.append("\\\"");
            proof {
                assert(out@ =~= old(out)@ + (pre + esc_char(c)));
            }
        } else if c == '\\' {
            out.append("\\\\");
            proof {
                assert(out@ =~= old(out)@ + (pre + esc_char(c)));
            }
        } else if c == '\n' {
            out.append("\\n");
            proof {
                assert(out@ =~= old(out)@ + (pre + esc_char(c)));
            }
        } else if c == '\r' {
            out.append("\\r");
            proof {
                assert(out@ =~= old(out)@ + (pre + esc_char(c)));
            }
        } else if c == '\t' {
            out.append("\\t");
            proof {
                assert(out@ =~= old(out)@ + (pre + esc_char(c)));
            }
        } else if c == '\u{8}' {
            out.append("\\b");
            proof {
                assert(out@ =~= old(out)@ + (pre + esc_char(c)));
            }
        } else if c == '\u{c}' {
            out.append("\\f");
            proof {
                assert(out@ =~= old(out)@ + (pre + esc_char(c)));
            }
        } else if (c as u32) < 32 {
            let cv = c as u32;
            out.append("\\u00");
            out.append(hex_str(cv / 16));
            out.append(hex_str(cv % 16));
            proof {
                assert(out@ =~= old(out)@ + (pre + esc_char(c)));
            }
        } else {
            out.append(s.substring_char(i, i + 1));
            proof {
                assert(s@.subrange(i as int, i + 1) =~= seq![s@[i as int]]);
                assert(esc_char(c) == seq![c]);
                assert(out@ =~= old(out)@ + (pre + esc_char(c)));
            }
        }
        proof {
            assert(s@.subrange(0, i + 1).drop_last() =~= s@.subrange(0, i as int));
            assert(s@.subrange(0, i + 1).last() == s@[i as int]);
        }
        i = i + 1;
    }
    proof {
        assert(s@.subrange(0, n as int) =~= s@);
    }
}

/// Appends `"` escaped `"` to `out`.
fn append_quoted(out: &mut String, s: &str)
    ensures
        final(out)@ == old(out)@ + quoted(s@),
{
    proof {
        reveal_strlit("\"");
    }
    out.append("\"");
    append_escaped(out, s);
    out.append("\"");
    proof {
        assert(out@ =~= old(out)@ + quoted(s@));
    }
}

fn append_compact(out: &mut String, v: &Value)
    ensures
        final(out)@ == old(out)@ + compact_of(v@),
    decreases *v,
{
    proof {
        reveal_strlit("null");
        reveal_strlit("true");
        reveal_strlit("false");
        reveal_strlit("[");
        reveal_strlit("]");
        reveal_strlit("{");
        reveal_strlit("}");
        reveal_strlit(",");
        reveal_strlit(":");
    }
    match v {
        Value::Null => {
            out.append("null");
            proof {
                assert(out@ =~= old(out)@ + compact_of(v@));
            }
        },
        Value::Bool(b) => {
            if *b {
                out.append("true");
            } else {
                out.append("false");
            }
            proof {
                assert(out@ =~= old(out)@ + compact_of(v@));
            }
        },
        Value::Number(t) => {
            out.append(t.as_str());
            proof {
                assert(out@ =~= old(out)@ + compact_of(v@));
            }
        },
        Value::Text(s) => {
            append_quoted(out, s.as_str());
        },
        Value::Array(a) => {
            proof {
                lemma_view_array(*a);
            }
            let ghost av = elems_view(a@);
            out.append("[");
            let mut i: usize = 0;
            proof {
                assert(compact_items(av.subrange(0, 0)) =~= Seq::<char>::empty());
                assert(out@ =~= old(out)@ + seq!['['] + compact_items(av.subrange(0, 0)));
            }
            #[verifier::loop_isolation(false)]
            while i < a.len()
                invariant
                    0 <= i <= a.len(),
                    out@ == old(out)@ + seq!['['] + compact_items(av.subrange(0, i as int)),
                decreases a.len() - i,
            {
                proof {
                    assert(decreases_to!(*v => v->Array_0));
                    assert(decreases_to!(v->Array_0 => v->Array_0[i as int]));
                }
                if i > 0 {
                    out.append(",");
                }
                append_compact(out, &a[i]);
                proof {
                    assert(av.subrange(0, i + 1).drop_last() =~= av.subrange(0, i as int));
                    assert(av.subrange(0, i + 1).last() == av[i as int]);
                    assert(out@ =~= old(out)@ + seq!['['] + compact_items(av.subrange(0, i + 1)));
                }
                i = i + 1;
            }
            out.append("]");
            proof {
                assert(av.subrange(0, i as int) =~= av);
                assert(out@ =~= old(out)@ + compact_of(v@));
            }
        },
        Value::Object(m) => {
            proof {
                lemma_view_object(*m);
            }
            let ghost mv = fields_view(m@);
            out.append("{");
            let mut i: usize = 0;
            proof {
                assert(compact_fields(mv.subrange(0, 0)) =~= Seq::<char>::empty());
                assert(out@ =~= old(out)@ + seq!['{'] + compact_fields(mv.subrange(0, 0)));
            }
            #[verifier::loop_isolation(false)]
            while i < m.len()
                invariant
                    0 <= i <= m.len(),
                    out@ == old(out)@ + seq!['{'] + compact_fields(mv.subrange(0, i as int)),
                decreases m.len() - i,
            {
                proof {
                    assert(decreases_to!(*v => v->Object_0));
                    assert(decreases_to!(v->Object_0 => v->Object_0[i as int]));
                    assert(decreases_to!(v->Object_0[i as int] => v->Object_0[i as int].1));
                }
                if i > 0 {
                    out.append(",");
                }
                let entry = &m[i];
                append_quoted(out, entry.0.as_str());
                out.append(":");
                append_compact(out, &entry.1);
                proof {
                    assert(mv.subrange(0, i + 1).drop_last() =~= mv.subrange(0, i as int));
                    assert(mv.subrange(0, i + 1).last() == mv[i as int]);
                    assert(out@ =~= old(out)@ + seq!['{'] + compact_fields(mv.subrange(0, i + 1)));
                }
                i = i + 1;
            }
            out.append("}");
            proof {
                assert(mv.subrange(0, i as int) =~= mv);
                assert(out@ =~= old(out)@ + compact_of(v@));
            }
        },
    }
}

fn append_spaces(out: &mut String, n: usize)
    ensures
        final(out)@ == old(out)@ + spaces(n as nat),
{
    proof {
        reveal_strlit(" ");
    }
    let mut i: usize = 0;
    proof {
        assert(old(out)@ + spaces(0) =~= old(out)@);
    }
    #[verifier::loop_isolation(false)]
    while i < n
        invariant
            0 <= i <= n,
            out@ == old(out)@ + spaces(i as nat),
        decreases n - i,
    {
        out.append(" ");
        proof {
            assert(out@ =~= old(out)@ + spaces((i + 1) as nat));
        }
        i = i + 1;
    }
}

fn append_pretty_elems(out: &mut String, a: &Vec<Value>, ind2: usize)
    ensures
        final(out)@ == old(out)@ + pretty_items(elems_view(a@), ind2 as nat),
    decreases *a,
{
    proof {
        reveal_strlit(",");
        reveal_strlit("\n");
    }
    let ghost av = elems_view(a@);
    let mut i: usize = 0;
    proof {
        assert(pretty_items(av.subrange(0, 0), ind2 as nat) =~= Seq::<char>::empty());
        assert(old(out)@ + pretty_items(av.subrange(0, 0), ind2 as nat) =~= old(out)@);
    }
    #[verifier::loop_isolation(false)]
    while i < a.len()
        invariant
            0 <= i <= a.len(),
            out@ == old(out)@ + pretty_items(av.subrange(0, i as int), ind2 as nat),
        decreases a.len() - i,
    {
        proof {
            assert(decreases_to!(*a => (*a)[i as int]));
        }
        if i > 0 {
            out.append(",");
        }
        out.append("\n");
        append_spaces(out, ind2);
        append_pretty(out, &a[i], ind2);
        proof {
            assert(av.subrange(0, i + 1).drop_last() =~= av.subrange(0, i as int));
            assert(av.subrange(0, i + 1).last() == av[i as int]);
            assert(out@ =~= old(out)@ + pretty_items(av.subrange(0, i + 1), ind2 as nat));
        }
        i = i + 1;
    }
    proof {
        assert(av.subrange(0, i as int) =~= av);
    }
}

fn append_pretty_fields(out: &mut String, m: &Vec<(String, Value)>, ind2: usize)
    ensures
        final(out)@ == old(out)@ + pretty_fields(fields_view(m@), ind2 as nat),
    decreases *m,
{
    proof {
        reveal_strlit(",");
        reveal_strlit(": ");
        reveal_strlit("\n");
    }
    let ghost mv = fields_view(m@);
    let mut i: usize = 0;
    proof {
        assert(pretty_fields(mv.subrange(0, 0), ind2 as nat) =~= Seq::<char>::empty());
        assert(old(out)@ + pretty_fields(mv.subrange(0, 0), ind2 as nat) =~= old(out)@);
    }
    #[verifier::loop_isolation(false)]
    while i < m.len()
        invariant
            0 <= i <= m.len(),
            out@ == old(out)@ + pretty_fields(mv.subrange(0, i as int), ind2 as nat),
        decreases m.len() - i,
    {
        proof {
            assert(decreases_to!(*m => (*m)[i as int]));
            assert(decreases_to!((*m)[i as int] => (*m)[i as int].1));
        }
        if i > 0 {
            out.append(",");
        }
        out.append("\n");
        append_spaces(out, ind2);
        let entry = &m[i];
        append_quoted(out, entry.0.as_str());
        out.append(": ");
        append_pretty(out, &entry.1, ind2);
        proof {
            assert(mv.subrange(0, i + 1).drop_last() =~= mv.subrange(0, i as int));
            assert(mv.subrange(0, i + 1).last() == mv[i as int]);
            assert(out@ =~= old(out)@ + pretty_fields(mv.subrange(0, i + 1), ind2 as nat));
        }
        i = i + 1;
    }
    proof {
        assert(mv.subrange(0, i as int) =~= mv);
    }
}

fn append_pretty(out: &mut String, v: &Value, ind: usize)
    ensures
        final(out)@ == old(out)@ + pretty_of(v@, ind as nat),
    decreases *v,
{
    proof {
        reveal_strlit("null");
        reveal_strlit("true");
        reveal_strlit("false");
        reveal_strlit("[");
        reveal_strlit("]");
        reveal_strlit("[]");
        reveal_strlit("{");
        reveal_strlit("}");
        reveal_strlit("{}");
        reveal_strlit("\n");
    }
    match v {
        Value::Null => {
            out.append("null");
            proof {
                assert(out@ =~= old(out)@ + pretty_of(v@, ind as nat));
            }
        },
        Value::Bool(b) => {
            if *b {
                out.append("true");
            } else {
                out.append("false");
            }
            proof {
                assert(out@ =~= old(out)@ + pretty_of(v@, ind as nat));
            }
        },
        Value::Number(t) => {
            out.append(t.as_str());
            proof {
                assert(out@ =~= old(out)@ + pretty_of(v@, ind as nat));
            }
        },
        Value::Text(s) => {
            append_quoted(out, s.as_str());
        },
        Value::Array(a) => {
            proof {
                lemma_view_array(*a);
            }
            if a.len() == 0 {
                out.append("[]");
                proof {
                    assert(out@ =~= old(out)@ + pretty_of(v@, ind as nat));
                }
                return ;
            }
            let ind2 = if ind <= usize::MAX - 2 {
                ind + 2
            } else {
                ind
            };
            proof {
                assert(ind2 as nat == next_indent(ind as nat));
                assert(decreases_to!(*v => v->Array_0));
            }
            out.append("[");
            append_pretty_elems(out, a, ind2);
            out.append("\n");
            append_spaces(out, ind);
            out.append("]");
            proof {
                assert(out@ =~= old(out)@ + pretty_of(v@, ind as nat));
            }
        },
        Value::Object(m) => {
            proof {
                lemma_view_object(*m);
            }
            if m.len() == 0 {
                out.append("{}");
                proof {
                    assert(out@ =~= old(out)@ + pretty_of(v@, ind as nat));
                }
                return ;
            }
            let ind2 = if ind <= usize::MAX - 2 {
                ind + 2
            } else {
                ind
            };
            proof {
                assert(ind2 as nat == next_indent(ind as nat));
                assert(decreases_to!(*v => v->Object_0));
            }
            out.append("{");
            append_pretty_fields(out, m, ind2);
            out.append("\n");
            append_spaces(out, ind);
            out.append("}");
            proof {
                assert(out@ =~= old(out)@ + pretty_of(v@, ind as nat));
            }
        },
    }
}

impl Value {
    /// The compact JSON text of this value.
    pub fn to_json_string(&self) -> (r: String)
        ensures
            r@ == compact_of(self@),
    {
        let mut out = String::new();
        append_compact(&mut out, self);
        proof {
            assert(Seq::<char>::empty() + compact_of(self@) =~= compact_of(self@));
        }
        out
    }

    /// The pretty JSON text of this value, two-space indented.
    pub fn to_pretty_string(&self) -> (r: String)
        ensures
            r@ == pretty_of(self@, 0),
    {
        let mut out = String::new();
        append_pretty(&mut out, self, 0);
        proof {
            assert(Seq::<char>::empty() + pretty_of(self@, 0) =~= pretty_of(self@, 0));
        }
        out
    }
}

} // verus!
