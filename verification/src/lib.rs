//! A declarative JSON-to-JSON mapping engine.
//!
//! Given an input document and a template document whose leaf strings
//! encode either a path into the input or a quoted literal, the engine
//! produces a document with the template's shape and every leaf resolved
//! against the input. Decorated template keys further let an object be
//! split into an array, one copy per element of a spread array beneath it.

pub mod convert;
pub mod decorate;
pub mod errors;
pub mod laws;
pub mod objops;
pub mod pointer;
pub mod render;
pub mod resolve;
pub mod strutil;
pub mod substitute;
pub mod value;

use vstd::prelude::*;
use crate::convert::{process_array_convertible_objs, spec_walk, SpecWalkState};
use crate::errors::{res_view, SpecError, TransformError};
use crate::substitute::{spec_substitute, substitute_value};
use crate::value::{elems_view, lemma_view_array, SpecValue, Value};

verus! {

/// The result of the whole transformation, entry by entry: each
/// template entry must be an object with at least one key; it is
/// substituted against the input and then run through the conversion
/// walk with fresh scratch stacks; the first failure aborts everything.
pub open spec fn spec_transform_entries(input: SpecValue, entries: Seq<SpecValue>) -> Result<
    Seq<SpecValue>,
    SpecError,
>
    decreases entries.len(),
{
    if entries.len() == 0 {
        Ok(Seq::empty())
    } else {
        let e = entries.first();
        match e {
            SpecValue::Object(m) => {
                if m.len() == 0 {
                    Err(SpecError::TemplateEntryNoKey(e))
                } else {
                    match spec_substitute(input, e) {
                        Result::Err(er) => Err(er),
                        Result::Ok(s) => match spec_walk(
                            s,
                            SpecWalkState { output: s, visited: Seq::empty(), lens: Seq::empty() },
                            Seq::empty(),
                            Seq::empty(),
                        ) {
                            Result::Err(er) => Err(er),
                            Result::Ok(st) => match spec_transform_entries(
                                input,
                                entries.drop_first(),
                            ) {
                                Result::Err(er) => Err(er),
                                Result::Ok(rest) => Ok(seq![st.output] + rest),
                            },
                        },
                    }
                }
            },
            _ => Err(SpecError::TemplateEntryNotObject(e)),
        }
    }
}

/// What `transform` returns: the template must be an array of objects;
/// on success, one transformed value per template entry.
pub open spec fn spec_transform(input: SpecValue, output: SpecValue) -> Result<
    SpecValue,
    SpecError,
> {
    match output {
        SpecValue::Array(es) => match spec_transform_entries(input, es) {
            Result::Ok(rs) => Ok(SpecValue::Array(rs)),
            Result::Err(e) => Err(e),
        },
        _ => Err(SpecError::TemplateNotArray),
    }
}

/// Transforms `input` by the template `output`: every template entry is
/// substituted against the input and its decorated objects are split
/// into arrays; see [`spec_transform`].
pub fn transform(input: &Value, output: &Value) -> (r: Result<Value, TransformError>)
    ensures
        res_view(r) == spec_transform(input@, output@),
{
    match output {
        Value::Array(entries) => {
            proof {
                lemma_view_array(*entries);
            }
            let ghost ev = elems_view(entries@);
            let ghost whole = spec_transform_entries(input@, ev);
            let mut results: Vec<Value> = Vec::new();
            let mut i: usize = 0;
            proof {
                assert(ev.skip(0) =~= ev);
                if whole is Ok {
                    assert(whole->Ok_0 =~= elems_view(results@) + whole->Ok_0);
                }
            }
            #[verifier::loop_isolation(false)]
            while i < entries.len()
                invariant
                    0 <= i <= entries.len(),
                    ({
                        let tail = spec_transform_entries(input@, ev.skip(i as int));
                        &&& (tail is Ok ==> whole is Ok && whole->Ok_0 =~= elems_view(results@)
                            + tail->Ok_0)
                        &&& (tail is Err ==> whole == tail)
                    }),
                decreases entries.len() - i,
            {
                let ghost tailpre = ev.skip(i as int);
                proof {
                    assert(tailpre.len() > 0);
                    assert(tailpre.first() == ev[i as int]);
                    assert(tailpre.drop_first() =~= ev.skip(i + 1));
                }
                let entry = &entries[i];
                match entry {
                    Value::Object(m) => {
                        proof {
                            crate::value::lemma_view_object(*m);
                        }
                        if m.len() == 0 {
                            return Err(TransformError::TemplateEntryNoKey(entry.duplicate()));
                        }
                    },
                    _ => {
                        return Err(TransformError::TemplateEntryNotObject(entry.duplicate()));
                    },
                }
                let mut obj = match substitute_value(input, entry) {
                    Result::Ok(v) => v,
                    Result::Err(e) => {
                        return Err(e);
                    },
                };
                let snap = obj.duplicate();
                let mut vis: Vec<String> = Vec::new();
                let mut lens: Vec<usize> = Vec::new();
                proof {
                    reveal_strlit("");
                    assert(""@ =~= Seq::<char>::empty());
                    assert(crate::strutil::views_of(vis@) =~= Seq::<Seq<char>>::empty());
                    assert(crate::convert::lens_view(lens@) =~= Seq::<int>::empty());
                    assert(SpecWalkState {
                        output: obj@,
                        visited: crate::strutil::views_of(vis@),
                        lens: crate::convert::lens_view(lens@),
                    } =~= SpecWalkState {
                        output: spec_substitute(input@, ev[i as int])->Ok_0,
                        visited: Seq::empty(),
                        lens: Seq::empty(),
                    });
                }
                match process_array_convertible_objs(&snap, &mut obj, "", "", &mut vis, &mut lens) {
                    Result::Ok(()) => {},
                    Result::Err(e) => {
                        return Err(e);
                    },
                }
                let ghost pre = elems_view(results@);
                results.push(obj);
                proof {
                    let walked = spec_walk(
                        spec_substitute(input@, ev[i as int])->Ok_0,
                        SpecWalkState {
                            output: spec_substitute(input@, ev[i as int])->Ok_0,
                            visited: Seq::empty(),
                            lens: Seq::empty(),
                        },
                        Seq::empty(),
                        Seq::empty(),
                    );
                    assert(elems_view(results@) =~= pre + seq![walked->Ok_0.output]);
                    let tailnext = spec_transform_entries(input@, ev.skip(i + 1));
                    if tailnext is Ok {
                        assert((pre + seq![walked->Ok_0.output]) + tailnext->Ok_0 =~= pre + (seq![
                            walked->Ok_0.output,
                        ] + tailnext->Ok_0));
                    }
                }
                i = i + 1;
            }
            proof {
                assert(ev.skip(i as int).len() == 0);
                assert(elems_view(results@) + Seq::<SpecValue>::empty() =~= elems_view(results@));
            }
            let r = Value::Array(results);
            proof {
                lemma_view_array(r->Array_0);
            }
            Ok(r)
        },
        _ => Err(TransformError::TemplateNotArray),
    }
}

} // verus!
