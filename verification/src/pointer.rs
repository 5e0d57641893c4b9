//! Pointer navigation into a tree value.
//!
//! A pointer is a `/`-delimited absolute path: the empty path addresses
//! the whole document, every other path must begin with a slash. A
//! token descends into an object by key, or into an array by decimal
//! index (no sign, no leading zero). Keys containing `/` cannot be
//! addressed; the engine never produces such paths.

use vstd::prelude::*;
use crate::objops::{obj_find, obj_get, obj_index_of, obj_lookup};
use crate::strutil::{dec_of, digit_char, split_char, split_str, views_of};
use crate::value::{
    dup_elems, dup_fields, elems_view, fields_view, lemma_view_array, lemma_view_object, SpecValue,
    Value,
};

verus! {

/// A decimal digit.
pub open spec fn is_digit(c: char) -> bool {
    48 <= c as u32 <= 57
}

/// The numeric value of one digit.
pub open spec fn digit_val(c: char) -> nat
    recommends
        is_digit(c),
{
    (c as u32 - 48) as nat
}

/// Every character is a digit.
pub open spec fn all_digits(t: Seq<char>) -> bool {
    forall|i: int| 0 <= i < t.len() ==> is_digit(#[trigger] t[i])
}

/// The number written by a digit string.
pub open spec fn dec_value(t: Seq<char>) -> nat
    decreases t.len(),
{
    if t.len() == 0 {
        0
    } else {
        dec_value(t.drop_last()) * 10 + digit_val(t.last())
    }
}

/// An array-index token: digits only, no leading zero, in range.
pub open spec fn spec_parse_index(t: Seq<char>) -> Option<int> {
    if t.len() == 0 || !all_digits(t) {
        None
    } else if t[0] == '0' && t.len() > 1 {
        None
    } else if dec_value(t) > usize::MAX {
        None
    } else {
        Some(dec_value(t) as int)
    }
}

/// Descending through a list of tokens.
pub open spec fn spec_ptr_get(v: SpecValue, toks: Seq<Seq<char>>) -> Option<SpecValue>
    decreases toks.len(),
{
    if toks.len() == 0 {
        Some(v)
    } else {
        match v {
            SpecValue::Object(m) => match obj_get(m, toks.first()) {
                Option::None => None,
                Option::Some(c) => spec_ptr_get(c, toks.drop_first()),
            },
            SpecValue::Array(a) => match spec_parse_index(toks.first()) {
                Option::None => None,
                Option::Some(i) => if i < a.len() {
                    spec_ptr_get(a[i], toks.drop_first())
                } else {
                    None
                },
            },
            _ => None,
        }
    }
}

/// Replacing the subtree a token list addresses.
pub open spec fn spec_ptr_set(v: SpecValue, toks: Seq<Seq<char>>, new: SpecValue) -> Option<
    SpecValue,
>
    decreases toks.len(),
{
    if toks.len() == 0 {
        Some(new)
    } else {
        match v {
            SpecValue::Object(m) => match obj_find(m, toks.first()) {
                Option::None => None,
                Option::Some(i) => match spec_ptr_set(m[i].1, toks.drop_first(), new) {
                    Option::None => None,
                    Option::Some(c) => Some(SpecValue::Object(m.update(i, (m[i].0, c)))),
                },
            },
            SpecValue::Array(a) => match spec_parse_index(toks.first()) {
                Option::None => None,
                Option::Some(i) => if i < a.len() {
                    match spec_ptr_set(a[i], toks.drop_first(), new) {
                        Option::None => None,
                        Option::Some(c) => Some(SpecValue::Array(a.update(i, c))),
                    }
                } else {
                    None
                },
            },
            _ => None,
        }
    }
}

/// The token list of a path: `None` for a nonempty path without a
/// leading slash.
pub open spec fn spec_ptr_tokens(path: Seq<char>) -> Option<Seq<Seq<char>>> {
    if path.len() == 0 {
        Some(Seq::empty())
    } else if path[0] != '/' {
        None
    } else {
        Some(split_char(path, '/').drop_first())
    }
}

/// The subtree a path addresses, if any.
pub open spec fn spec_pointer(v: SpecValue, path: Seq<char>) -> Option<SpecValue> {
    match spec_ptr_tokens(path) {
        Option::None => None,
        Option::Some(toks) => spec_ptr_get(v, toks),
    }
}

/// The tree with the subtree a path addresses replaced, if any.
pub open spec fn spec_pointer_set(v: SpecValue, path: Seq<char>, new: SpecValue) -> Option<
    SpecValue,
> {
    match spec_ptr_tokens(path) {
        Option::None => None,
        Option::Some(toks) => spec_ptr_set(v, toks, new),
    }
}

/// Parses an array-index token.
pub fn parse_index(t: &str) -> (r: Option<usize>)
    ensures
        ({
            let p = spec_parse_index(t@);
            match r {
                Option::Some(i) => p == Some(i as int),
                Option::None => p is None,
            }
        }),
{
    let n = t.unicode_len();
    if n == 0 {
        return None;
    }
    if t.get_char(0) == '0' && n > 1 {
        return None;
    }
    let mut acc: usize = 0;
    let mut i: usize = 0;
    #[verifier::loop_isolation(false)]
    while i < n
        invariant
            0 <= i <= n,
            all_digits(t@.subrange(0, i as int)),
            acc as nat == dec_value(t@.subrange(0, i as int)),
        decreases n - i,
    {
        let c = t.get_char(i);
        let cv = c as u32;
        if cv < 48 || cv > 57 {
            proof {
                assert(!all_digits(t@));
            }
            return None;
        }
        let d = (cv - 48) as usize;
        proof {
            assert(t@.subrange(0, i + 1).drop_last() =~= t@.subrange(0, i as int));
            assert(t@.subrange(0, i + 1).last() == t@[i as int]);
        }
        if acc > (usize::MAX - d) / 10 {
            proof {
                assert(dec_value(t@.subrange(0, i + 1)) > usize::MAX) by {
                    assert(acc * 10 + d > usize::MAX) by (nonlinear_arith)
                        requires
                            acc > (usize::MAX - d) / 10,
                            d <= 9,
                    ;
                };
                if all_digits(t@) {
                    lemma_dec_value_prefix_le(t@, i + 1, t@.len() as int);
                    assert(t@.subrange(0, t@.len() as int) =~= t@);
                    assert(dec_value(t@) > usize::MAX);
                }
                assert(spec_parse_index(t@) is None);
            }
            return None;
        }
        proof {
            assert(acc * 10 + d <= usize::MAX) by (nonlinear_arith)
                requires
                    acc <= (usize::MAX - d) / 10,
                    d <= 9,
            ;
        }
        acc = acc * 10 + d;
        i = i + 1;
    }
    proof {
        assert(t@.subrange(0, n as int) =~= t@);
    }
    Some(acc)
}

/// A digit string's value only grows with its length.
pub proof fn lemma_dec_value_prefix_le(t: Seq<char>, i: int, j: int)
    requires
        0 <= i <= j <= t.len(),
        all_digits(t),
    ensures
        dec_value(t.subrange(0, i)) <= dec_value(t.subrange(0, j)),
    decreases j - i,
{
    if i < j {
        lemma_dec_value_prefix_le(t, i, j - 1);
        let a = t.subrange(0, j - 1);
        let b = t.subrange(0, j);
        assert(b.drop_last() =~= a);
        assert(dec_value(b) == dec_value(a) * 10 + digit_val(b.last()));
        assert(dec_value(a) <= dec_value(a) * 10) by (nonlinear_arith);
    }
}

/// The decimal text of `n` parses back to `n`.
pub proof fn lemma_dec_roundtrip(n: nat)
    requires
        n <= usize::MAX,
    ensures
        spec_parse_index(dec_of(n)) == Some(n as int),
{
    lemma_dec_of_digits(n);
    lemma_dec_of_value(n);
    if n >= 10 {
        lemma_dec_of_leading(n);
        lemma_dec_of_digits(n / 10);
        assert(dec_of(n) == dec_of(n / 10).push(digit_char(n % 10)));
        assert(dec_of(n).len() > 1);
        assert(dec_of(n)[0] != '0');
    } else {
        assert(dec_of(n).len() == 1);
        if n == 0 {
            assert(dec_of(n)[0] == '0');
        }
    }
}

/// Decimal text consists of digits.
proof fn lemma_dec_of_digits(n: nat)
    ensures
        all_digits(dec_of(n)),
        dec_of(n).len() >= 1,
    decreases n,
{
    if n < 10 {
        assert(is_digit(digit_char(n)));
    } else {
        lemma_dec_of_digits(n / 10);
        assert(is_digit(digit_char(n % 10)));
        assert forall|i: int| 0 <= i < dec_of(n).len() implies is_digit(#[trigger] dec_of(n)[i]) by {
            if i < dec_of(n / 10).len() {
                assert(dec_of(n)[i] == dec_of(n / 10)[i]);
            }
        }
    }
}

/// Decimal text evaluates back to its number.
proof fn lemma_dec_of_value(n: nat)
    ensures
        dec_value(dec_of(n)) == n,
    decreases n,
{
    if n < 10 {
        assert(dec_value(Seq::<char>::empty()) == 0);
        assert(dec_of(n).drop_last() =~= Seq::<char>::empty());
        assert(dec_of(n).last() == digit_char(n));
        assert(digit_val(digit_char(n)) == n);
    } else {
        lemma_dec_of_value(n / 10);
        assert(dec_of(n).drop_last() =~= dec_of(n / 10));
        assert(dec_of(n).last() == digit_char(n % 10));
        assert(digit_val(digit_char(n % 10)) == n % 10);
        assert(dec_value(dec_of(n)) == (n / 10) * 10 + n % 10);
        vstd::arithmetic::div_mod::lemma_fundamental_div_mod(n as int, 10);
        assert((n / 10) * 10 + n % 10 == n);
    }
}

/// Numbers of ten or more never start with a zero digit.
proof fn lemma_dec_of_leading(n: nat)
    requires
        n >= 1,
    ensures
        dec_of(n)[0] != '0',
    decreases n,
{
    if n < 10 {
        assert(digit_char(n) != '0');
    } else {
        lemma_dec_of_leading(n / 10);
        assert(dec_of(n)[0] == dec_of(n / 10)[0]);
    }
}

/// A reference to the subtree `path` addresses in `v`.
pub fn ptr_get<'a>(v: &'a Value, path: &str) -> (r: Option<&'a Value>)
    ensures
        ({
            let p = spec_pointer(v@, path@);
            match r {
                Option::Some(c) => p == Some(c@),
                Option::None => p is None,
            }
        }),
{
    if path.unicode_len() == 0 {
        return Some(v);
    }
    if path.get_char(0) != '/' {
        return None;
    }
    let toks = split_str(path, '/');
    proof {
        crate::strutil::lemma_split_char_len(path@, '/');
        assert(views_of(toks@).skip(1) =~= split_char(path@, '/').drop_first());
    }
    ptr_get_toks(v, &toks, 1)
}

fn ptr_get_toks<'a>(v: &'a Value, toks: &Vec<String>, at: usize) -> (r: Option<&'a Value>)
    requires
        at <= toks@.len(),
    ensures
        ({
            let p = spec_ptr_get(v@, views_of(toks@).skip(at as int));
            match r {
                Option::Some(c) => p == Some(c@),
                Option::None => p is None,
            }
        }),
    decreases toks@.len() - at,
{
    let ghost rest = views_of(toks@).skip(at as int);
    if at == toks.len() {
        proof {
            assert(rest.len() == 0);
        }
        return Some(v);
    }
    proof {
        assert(rest.first() == toks@[at as int]@);
        assert(rest.drop_first() =~= views_of(toks@).skip(at + 1));
    }
    match v {
        Value::Object(m) => {
            proof {
                lemma_view_object(*m);
            }
            match obj_lookup(m, toks[at].as_str()) {
                Option::Some(c) => ptr_get_toks(c, toks, at + 1),
                Option::None => None,
            }
        },
        Value::Array(a) => {
            proof {
                lemma_view_array(*a);
            }
            match parse_index(toks[at].as_str()) {
                Option::Some(i) => {
                    if i < a.len() {
                        ptr_get_toks(&a[i], toks, at + 1)
                    } else {
                        None
                    }
                },
                Option::None => None,
            }
        },
        _ => None,
    }
}

/// The tree `v` with the subtree `path` addresses replaced by `new`.
pub fn ptr_set(v: &Value, path: &str, new: Value) -> (r: Option<Value>)
    ensures
        ({
            let p = spec_pointer_set(v@, path@, new@);
            match r {
                Option::Some(out) => p == Some(out@),
                Option::None => p is None,
            }
        }),
{
    if path.unicode_len() == 0 {
        return Some(new);
    }
    if path.get_char(0) != '/' {
        return None;
    }
    let toks = split_str(path, '/');
    proof {
        crate::strutil::lemma_split_char_len(path@, '/');
        assert(views_of(toks@).skip(1) =~= split_char(path@, '/').drop_first());
    }
    ptr_set_toks(v, &toks, 1, new)
}

fn ptr_set_toks(v: &Value, toks: &Vec<String>, at: usize, new: Value) -> (r: Option<Value>)
    requires
        at <= toks@.len(),
    ensures
        ({
            let p = spec_ptr_set(v@, views_of(toks@).skip(at as int), new@);
            match r {
                Option::Some(out) => p == Some(out@),
                Option::None => p is None,
            }
        }),
    decreases toks@.len() - at,
{
    let ghost rest = views_of(toks@).skip(at as int);
    if at == toks.len() {
        proof {
            assert(rest.len() == 0);
        }
        return Some(new);
    }
    proof {
        assert(rest.first() == toks@[at as int]@);
        assert(rest.drop_first() =~= views_of(toks@).skip(at + 1));
    }
    match v {
        Value::Object(m) => {
            proof {
                lemma_view_object(*m);
            }
            match obj_index_of(m, toks[at].as_str()) {
                Option::Some(i) => {
                    match ptr_set_toks(&m[i].1, toks, at + 1, new) {
                        Option::Some(c) => {
                            let mut out = dup_fields(m);
                            let key = m[i].0.clone();
                            let _ = out.remove(i);
                            out.insert(i, (key, c));
                            proof {
                                lemma_view_object(out);
                                let mv = fields_view(m@);
                                assert(fields_view(out@) =~= mv.update(
                                    i as int,
                                    (mv[i as int].0, spec_ptr_set(mv[i as int].1, rest.drop_first(), new@)->Some_0),
                                ));
                            }
                            Some(Value::Object(out))
                        },
                        Option::None => None,
                    }
                },
                Option::None => None,
            }
        },
        Value::Array(a) => {
            proof {
                lemma_view_array(*a);
            }
            match parse_index(toks[at].as_str()) {
                Option::Some(i) => {
                    if i < a.len() {
                        match ptr_set_toks(&a[i], toks, at + 1, new) {
                            Option::Some(c) => {
                                let mut out = dup_elems(a);
                                let _ = out.remove(i);
                                out.insert(i, c);
                                proof {
                                    lemma_view_array(out);
                                    let av = elems_view(a@);
                                    assert(elems_view(out@) =~= av.update(
                                        i as int,
                                        spec_ptr_set(av[i as int], rest.drop_first(), new@)->Some_0,
                                    ));
                                }
                                Some(Value::Array(out))
                            },
                            Option::None => None,
                        }
                    } else {
                        None
                    }
                },
                Option::None => None,
            }
        },
        _ => None,
    }
}

} // verus!
