//! The substitution engine.
//!
//! A depth-first walk of the template: each object is entered field by
//! field, and each leaf must be a string. A single-quoted leaf becomes
//! the literal text with every quote character removed; any other leaf
//! is split on `/`, its first segment discarded (paths are absolute),
//! and resolved against the input.

use vstd::prelude::*;
use crate::errors::{res_view, SpecError, TransformError};
use crate::resolve::{resolve_output_field_value, spec_resolve};
use crate::strutil::{split_char, split_str, views_of};
use crate::value::{fields_view, lemma_view_object, SpecValue, Value};

verus! {

/// The text with every single-quote character removed.
pub open spec fn spec_strip_quotes(s: Seq<char>) -> Seq<char> {
    s.filter(|c: char| c != '\'')
}

/// A literal leaf: wrapped in single quotes.
pub open spec fn spec_is_literal(s: Seq<char>) -> bool {
    s.len() > 0 && s[0] == '\'' && s[s.len() - 1] == '\''
}

/// What substituting a template node against the input returns.
pub open spec fn spec_substitute(input: SpecValue, node: SpecValue) -> Result<SpecValue, SpecError>
    decreases node,
{
    match node {
        SpecValue::Object(m) => match spec_subst_fields(input, m) {
            Result::Ok(fs) => Ok(SpecValue::Object(fs)),
            Result::Err(e) => Err(e),
        },
        SpecValue::Text(s) => {
            if spec_is_literal(s) {
                Ok(SpecValue::Text(spec_strip_quotes(s)))
            } else {
                spec_resolve(split_char(s, '/').drop_first(), input)
            }
        },
        _ => Err(SpecError::MalformedTemplate(node)),
    }
}

/// The fields of an object, each value substituted, stopping at the
/// first field that fails.
pub open spec fn spec_subst_fields(
    input: SpecValue,
    m: Seq<(Seq<char>, SpecValue)>,
) -> Result<Seq<(Seq<char>, SpecValue)>, SpecError>
    decreases m,
{
    if m.len() == 0 {
        Ok(Seq::empty())
    } else {
        match spec_substitute(input, m.first().1) {
            Result::Err(e) => Err(e),
            Result::Ok(v) => match spec_subst_fields(input, m.drop_first()) {
                Result::Err(e) => Err(e),
                Result::Ok(rest) => Ok(seq![(m.first().0, v)] + rest),
            },
        }
    }
}

/// Removes every single-quote character.
fn strip_quotes(s: &str) -> (r: String)
    ensures
        r@ == spec_strip_quotes(s@),
{
    let pieces = split_str(s, '\'');
    let mut out = String::new();
    let mut i: usize = 0;
    proof {
        assert(views_of(pieces@).subrange(0, 0) =~= Seq::<Seq<char>>::empty());
    }
    #[verifier::loop_isolation(false)]
    while i < pieces.len()
        invariant
            0 <= i <= pieces@.len(),
            out@ == join_all(views_of(pieces@).subrange(0, i as int)),
        decreases pieces@.len() - i,
    {
        out.append(pieces[i].as_str());
        proof {
            let pv = views_of(pieces@);
            assert(pv.subrange(0, i + 1).drop_last() =~= pv.subrange(0, i as int));
            assert(pv.subrange(0, i + 1).last() == pv[i as int]);
        }
        i = i + 1;
    }
    proof {
        assert(views_of(pieces@).subrange(0, i as int) =~= views_of(pieces@));
        lemma_split_join_filter(s@, '\'');
    }
    out
}

/// All pieces joined, in order, with nothing between them.
pub open spec fn join_all(ps: Seq<Seq<char>>) -> Seq<char>
    decreases ps.len(),
{
    if ps.len() == 0 {
        Seq::empty()
    } else {
        join_all(ps.drop_last()) + ps.last()
    }
}

/// For any text, joining its split pieces equals filtering the
/// separator out.
proof fn lemma_split_join_filter(s: Seq<char>, c: char)
    ensures
        join_all(split_char(s, c)) == s.filter(|x: char| x != c),
    decreases s.len(),
{
    crate::strutil::lemma_find_from_found(s, seq![c], 0);
    match crate::strutil::find_from(s, seq![c], 0) {
        Option::None => {
            assert(split_char(s, c) == seq![s]);
            assert(join_all(Seq::<Seq<char>>::empty()) == Seq::<char>::empty());
            assert(seq![s].drop_last() =~= Seq::<Seq<char>>::empty());
            assert(seq![s].last() == s);
            assert(join_all(seq![s]) == Seq::<char>::empty() + s);
            assert(Seq::<char>::empty() + s =~= s);
            assert forall|j: int| 0 <= j < s.len() implies s[j] != c by {
                if s[j] == c {
                    assert(s.subrange(j, j + 1) =~= seq![c]);
                    assert(crate::strutil::matches_at(s, seq![c], j));
                }
            }
            lemma_filter_all_kept(s, c);
        },
        Option::Some(i) => {
            let head = s.subrange(0, i);
            let tail = s.subrange(i + 1, s.len() as int);
            lemma_split_join_filter(tail, c);
            assert(s[i] == c) by {
                assert(crate::strutil::matches_at(s, seq![c], i));
                assert(s.subrange(i, i + 1)[0] == s[i]);
            }
            assert forall|j: int| 0 <= j < i implies s[j] != c by {
                if s[j] == c {
                    assert(s.subrange(j, j + 1) =~= seq![c]);
                    assert(crate::strutil::matches_at(s, seq![c], j));
                }
            }
            lemma_filter_all_kept(head, c);
            lemma_join_prepend(head, split_char(tail, c));
            assert(s =~= head + seq![c] + tail);
            lemma_filter_split(head, tail, c);
        },
    }
}

/// Filtering keeps a text without the separator intact.
proof fn lemma_filter_all_kept(s: Seq<char>, c: char)
    requires
        forall|j: int| 0 <= j < s.len() ==> s[j] != c,
    ensures
        s.filter(|x: char| x != c) == s,
    decreases s.len(),
{
    reveal(Seq::filter);
    if s.len() == 0 {
        assert(s.filter(|x: char| x != c) =~= s);
    } else {
        lemma_filter_all_kept(s.drop_last(), c);
        assert(s.filter(|x: char| x != c) =~= s) by {
            assert(s.drop_last().filter(|x: char| x != c) == s.drop_last());
            assert(s.filter(|x: char| x != c) == s.drop_last().filter(|x: char| x != c).push(
                s.last(),
            ));
        }
    }
}

/// Joining with one more piece in front.
proof fn lemma_join_prepend(head: Seq<char>, ps: Seq<Seq<char>>)
    ensures
        join_all(seq![head] + ps) == head + join_all(ps),
    decreases ps.len(),
{
    if ps.len() == 0 {
        assert(join_all(Seq::<Seq<char>>::empty()) == Seq::<char>::empty());
        assert(seq![head] + ps =~= seq![head]);
        assert(seq![head].drop_last() =~= Seq::<Seq<char>>::empty());
        assert(seq![head].last() == head);
        assert(join_all(seq![head]) == Seq::<char>::empty() + head);
        assert(Seq::<char>::empty() + head =~= head);
        assert(head + join_all(ps) =~= head);
    } else {
        lemma_join_prepend(head, ps.drop_last());
        assert((seq![head] + ps).drop_last() =~= seq![head] + ps.drop_last());
        assert((seq![head] + ps).last() == ps.last());
        assert(head + (join_all(ps.drop_last()) + ps.last()) =~= (head + join_all(ps.drop_last()))
            + ps.last());
    }
}

/// Filtering a text that is head, separator, tail.
proof fn lemma_filter_split(head: Seq<char>, tail: Seq<char>, c: char)
    requires
        forall|j: int| 0 <= j < head.len() ==> head[j] != c,
    ensures
        (head + seq![c] + tail).filter(|x: char| x != c) == head + tail.filter(|x: char| x != c),
    decreases tail.len(),
{
    let f = |x: char| x != c;
    reveal(Seq::filter);
    if tail.len() == 0 {
        assert(head + seq![c] + tail =~= head.push(c));
        lemma_filter_all_kept(head, c);
        assert(head.push(c).drop_last() =~= head);
        assert(head.push(c).filter(f) == head.filter(f));
        assert(head + tail.filter(f) =~= head.filter(f));
    } else {
        lemma_filter_split(head, tail.drop_last(), c);
        let whole = head + seq![c] + tail;
        assert(whole.drop_last() =~= head + seq![c] + tail.drop_last());
        assert(whole.last() == tail.last());
        if f(tail.last()) {
            assert(whole.filter(f) == (head + seq![c] + tail.drop_last()).filter(f).push(
                tail.last(),
            ));
            assert(tail.filter(f) == tail.drop_last().filter(f).push(tail.last()));
            assert((head + tail.drop_last().filter(f)).push(tail.last()) =~= head + tail.filter(
                f,
            ));
        } else {
            assert(whole.filter(f) == (head + seq![c] + tail.drop_last()).filter(f));
            assert(tail.filter(f) == tail.drop_last().filter(f));
        }
    }
}

/// Substitutes every leaf of a template node against the input,
/// returning the new node; see [`spec_substitute`].
pub fn substitute_value(input: &Value, node: &Value) -> (r: Result<Value, TransformError>)
    ensures
        res_view(r) == spec_substitute(input@, node@),
    decreases *node,
{
    match node {
        Value::Object(m) => {
            proof {
                lemma_view_object(*m);
            }
            let ghost mv = fields_view(m@);
            let mut out: Vec<(String, Value)> = Vec::new();
            let mut i: usize = 0;
            proof {
                assert(mv.skip(0) =~= mv);
                if spec_subst_fields(input@, mv) is Ok {
                    assert(spec_subst_fields(input@, mv)->Ok_0 =~= fields_view(out@)
                        + spec_subst_fields(input@, mv)->Ok_0);
                }
            }
            #[verifier::loop_isolation(false)]
            while i < m.len()
                invariant
                    0 <= i <= m.len(),
                    ({
                        let tail = spec_subst_fields(input@, mv.skip(i as int));
                        let whole = spec_subst_fields(input@, mv);
                        &&& (tail is Ok ==> whole is Ok && whole->Ok_0 =~= fields_view(out@)
                            + tail->Ok_0)
                        &&& (tail is Err ==> whole == tail)
                    }),
                decreases m.len() - i,
            {
                let ghost tailpre = mv.skip(i as int);
                proof {
                    assert(decreases_to!(*node => node->Object_0));
                    assert(decreases_to!(node->Object_0 => node->Object_0[i as int]));
                    assert(decreases_to!(node->Object_0[i as int] => node->Object_0[i as int].1));
                    assert(tailpre.len() > 0);
                    assert(tailpre.first() == mv[i as int]);
                    assert(tailpre.drop_first() =~= mv.skip(i + 1));
                }
                let entry = &m[i];
                match substitute_value(input, &entry.1) {
                    Result::Ok(v) => {
                        let ghost pre = fields_view(out@);
                        out.push((entry.0.clone(), v));
                        proof {
                            assert(fields_view(out@) =~= pre + seq![
                                (mv[i as int].0, spec_substitute(input@, mv[i as int].1)->Ok_0),
                            ]);
                            let tailnext = spec_subst_fields(input@, mv.skip(i + 1));
                            if tailnext is Ok {
                                assert((pre + seq![
                                    (mv[i as int].0, spec_substitute(input@, mv[i as int].1)->Ok_0),
                                ]) + tailnext->Ok_0 =~= pre + (seq![
                                    (mv[i as int].0, spec_substitute(input@, mv[i as int].1)->Ok_0),
                                ] + tailnext->Ok_0));
                            }
                        }
                    },
                    Result::Err(e) => {
                        return Err(e);
                    },
                }
                i = i + 1;
            }
            proof {
                assert(mv.skip(i as int).len() == 0);
                assert(fields_view(out@) + Seq::<(Seq<char>, SpecValue)>::empty() =~= fields_view(
                    out@,
                ));
            }
            let r = Value::Object(out);
            proof {
                lemma_view_object(r->Object_0);
            }
            Ok(r)
        },
        Value::Text(s) => {
            let n = s.as_str().unicode_len();
            if n > 0 && s.as_str().get_char(0) == '\'' && s.as_str().get_char(n - 1) == '\'' {
                Ok(Value::Text(strip_quotes(s.as_str())))
            } else {
                let mut toks = split_str(s.as_str(), '/');
                proof {
                    crate::strutil::lemma_split_char_len(s@, '/');
                }
                let rest = toks.split_off(1);
                proof {
                    assert(views_of(rest@) =~= split_char(s@, '/').drop_first());
                }
                resolve_output_field_value(&rest, input)
            }
        },
        _ => Err(TransformError::MalformedTemplate(node.duplicate())),
    }
}

/// Walks the template in place: on success the node holds the
/// substituted tree, on failure it is left untouched and the error
/// is returned; see [`spec_substitute`].
#[allow(unused_variables)]
pub fn traverse_mut(input: &Value, output: &mut Value, xpath: &str, key: &str) -> (r: Result<
    (),
    TransformError,
>)
    ensures
        match spec_substitute(input@, old(output)@) {
            Result::Ok(v) => r is Ok && final(output)@ == v,
            Result::Err(e) => (r matches Err(e2) && e2@ == e) && final(output)@ == old(output)@,
        },
{
    match substitute_value(input, output) {
        Result::Ok(v) => {
            *output = v;
            Ok(())
        },
        Result::Err(e) => Err(e),
    }
}

} // verus!
