//! The value resolver.
//!
//! A slash-delimited path is resolved against the input tree. An object
//! is entered by key; an array broadcasts the lookup over its elements,
//! splicing one level of nested arrays flat; a scalar swallows any
//! remaining segments and is returned as it stands.

use vstd::prelude::*;
use crate::errors::{res_view, SpecError, TransformError};
use crate::objops::obj_get;
use crate::objops::obj_lookup;
use crate::strutil::views_of;
use crate::value::{
    dup_elems, elems_view, lemma_view_array, lemma_view_object, SpecValue, Value,
};

verus! {

/// One broadcast step: the field looked up in every element, array
/// results spliced flat, stopping at the first element that refuses the
/// lookup (an element that is no object, or lacks the field).
pub open spec fn spec_collect(a: Seq<SpecValue>, field: Seq<char>) -> Result<
    Seq<SpecValue>,
    SpecError,
>
    decreases a.len(),
{
    if a.len() == 0 {
        Ok(Seq::empty())
    } else {
        let head = a.first();
        let got = match head {
            SpecValue::Object(m) => obj_get(m, field),
            _ => None,
        };
        match got {
            Option::None => Err(SpecError::FieldNotFound(field, head)),
            Option::Some(val) => match spec_collect(a.drop_first(), field) {
                Result::Err(e) => Err(e),
                Result::Ok(rest) => Ok(
                    (match val {
                        SpecValue::Array(inner) => inner,
                        _ => seq![val],
                    }) + rest,
                ),
            },
        }
    }
}

/// What resolving a segment list against a value returns.
pub open spec fn spec_resolve(segs: Seq<Seq<char>>, v: SpecValue) -> Result<SpecValue, SpecError>
    decreases segs.len(),
{
    if segs.len() == 0 {
        Ok(v)
    } else {
        match v {
            SpecValue::Array(a) => match spec_collect(a, segs.first()) {
                Result::Err(e) => Err(e),
                Result::Ok(flat) => spec_resolve(segs.drop_first(), SpecValue::Array(flat)),
            },
            SpecValue::Object(m) => match obj_get(m, segs.first()) {
                Option::None => Err(SpecError::FieldNotFound(segs.first(), v)),
                Option::Some(c) => spec_resolve(segs.drop_first(), c),
            },
            _ => Ok(v),
        }
    }
}

fn resolve_at(toks: &Vec<String>, at: usize, input: &Value) -> (r: Result<Value, TransformError>)
    requires
        at <= toks@.len(),
    ensures
        res_view(r) == spec_resolve(views_of(toks@).skip(at as int), input@),
    decreases toks@.len() - at,
{
    let ghost segs = views_of(toks@).skip(at as int);
    if at == toks.len() {
        proof {
            assert(segs.len() == 0);
        }
        return Ok(input.duplicate());
    }
    proof {
        assert(segs.first() == toks@[at as int]@);
        assert(segs.drop_first() =~= views_of(toks@).skip(at + 1));
    }
    match input {
        Value::Array(a) => {
            proof {
                lemma_view_array(*a);
            }
            let ghost av = elems_view(a@);
            let ghost fld = segs.first();
            let ghost whole = spec_collect(av, fld);
            let mut flat: Vec<Value> = Vec::new();
            let mut i: usize = 0;
            proof {
                assert(av.skip(0) =~= av);
                if whole is Ok {
                    assert(whole->Ok_0 =~= elems_view(flat@) + whole->Ok_0);
                }
            }
            #[verifier::loop_isolation(false)]
            while i < a.len()
                invariant
                    0 <= i <= a.len(),
                    ({
                        let tail = spec_collect(av.skip(i as int), fld);
                        &&& (tail is Ok ==> whole is Ok && whole->Ok_0 =~= elems_view(flat@)
                            + tail->Ok_0)
                        &&& (tail is Err ==> whole == tail)
                    }),
                decreases a.len() - i,
            {
                let ghost pre = elems_view(flat@);
                let ghost tailpre = av.skip(i as int);
                proof {
                    assert(tailpre.len() > 0);
                    assert(tailpre.first() == av[i as int]);
                    assert(tailpre.drop_first() =~= av.skip(i + 1));
                }
                let element = &a[i];
                let got = match element {
                    Value::Object(em) => {
                        proof {
                            lemma_view_object(*em);
                        }
                        obj_lookup(em, toks[at].as_str())
                    },
                    _ => None,
                };
                match got {
                    Option::Some(val) => {
                        match val {
                            Value::Array(inner) => {
                                proof {
                                    lemma_view_array(*inner);
                                }
                                let mut dup = dup_elems(inner);
                                flat.append(&mut dup);
                            },
                            _ => {
                                flat.push(val.duplicate());
                            },
                        }
                        proof {
                            let valv = (match av[i as int] {
                                SpecValue::Object(m) => obj_get(m, fld),
                                _ => None::<SpecValue>,
                            })->Some_0;
                            let valpart = (match valv {
                                SpecValue::Array(inner) => inner,
                                _ => seq![valv],
                            });
                            assert(elems_view(flat@) =~= pre + valpart);
                            let tailnext = spec_collect(av.skip(i + 1), fld);
                            if tailnext is Ok {
                                assert((pre + valpart) + tailnext->Ok_0 =~= pre + (valpart
                                    + tailnext->Ok_0));
                            }
                        }
                    },
                    Option::None => {
                        return Err(
                            TransformError::FieldNotFound(
                                toks[at].clone(),
                                element.duplicate(),
                            ),
                        );
                    },
                }
                i = i + 1;
            }
            proof {
                assert(av.skip(i as int).len() == 0);
                assert(spec_collect(av.skip(i as int), fld) == Result::<
                    Seq<SpecValue>,
                    SpecError,
                >::Ok(Seq::empty()));
                assert(whole is Ok && whole->Ok_0 =~= elems_view(flat@)) by {
                    assert(elems_view(flat@) + Seq::<SpecValue>::empty() =~= elems_view(flat@));
                }
            }
            let arr = Value::Array(flat);
            proof {
                lemma_view_array(arr->Array_0);
            }
            resolve_at(toks, at + 1, &arr)
        },
        Value::Object(m) => {
            proof {
                lemma_view_object(*m);
            }
            match obj_lookup(m, toks[at].as_str()) {
                Option::Some(c) => resolve_at(toks, at + 1, c),
                Option::None => Err(
                    TransformError::FieldNotFound(toks[at].clone(), input.duplicate()),
                ),
            }
        },
        _ => Ok(input.duplicate()),
    }
}

/// Resolves a path, given as its segment list, against the input tree;
/// see [`spec_resolve`] for the exact result, with the order of elements.
pub fn resolve_output_field_value(path_tokens: &Vec<String>, input: &Value) -> (r: Result<
    Value,
    TransformError,
>)
    ensures
        res_view(r) == spec_resolve(views_of(path_tokens@), input@),
{
    proof {
        assert(views_of(path_tokens@).skip(0) =~= views_of(path_tokens@));
    }
    resolve_at(path_tokens, 0, input)
}

} // verus!
