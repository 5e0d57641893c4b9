//! The array-conversion engine.
//!
//! A second depth-first walk over the substituted template. The walk
//! reads a snapshot of the tree while the live output is edited beside
//! it: decorated keys are renamed to their cleaned form, the position
//! and length of every spread array is recorded, and on leaving an
//! array-convertible object that object is split into an array of
//! copies, each taking one element from every spread array beneath it.

use vstd::prelude::*;
use crate::decorate::{
    clean_key, clean_path, format_key, is_obj_to_be_converted_to_array, is_to_be_spread_array,
    spec_clean_key, spec_clean_path, spec_format_key, spec_is_conv, spec_is_spread,
};
use crate::errors::{SpecError, TransformError};
use crate::objops::{obj_find, obj_get, obj_insert, obj_lookup, obj_swap_remove};
use crate::objops::{obj_insert_exec, obj_swap_remove_exec};
use crate::pointer::{ptr_get, ptr_set, spec_pointer, spec_pointer_set};
use crate::strutil::{dec_of, dec_string, find_from, find_str, str_eq, views_of};
use crate::value::{
    dup_fields, elems_view, fields_view, lemma_view_array, lemma_view_object, SpecValue, Value,
};

verus! {

/// The scratch state the conversion walk threads along: the live
/// output tree, the stack of cleaned spread locations, and the stack
/// of spread-array lengths.
#[verifier::ext_equal]
pub struct SpecWalkState {
    pub output: SpecValue,
    pub visited: Seq<Seq<char>>,
    pub lens: Seq<int>,
}

/// The view of a stack of lengths.
pub open spec fn lens_view(l: Seq<usize>) -> Seq<int> {
    Seq::new(l.len(), |i: int| if 0 <= i < l.len() { l[i] as int } else { 0 })
}

/// The remainder of `path` after the first occurrence of `pn`, the way
/// splitting a string once at a pattern yields its right part.
pub open spec fn spec_rel_after(path: Seq<char>, pn: Seq<char>) -> Option<Seq<char>> {
    match find_from(path, pn, 0) {
        Option::None => None,
        Option::Some(i) => Some(path.subrange(i + pn.len(), path.len() as int)),
    }
}

/// Writing element `i` of the spread array at `path` into copy `i`, for
/// every `i` below `upto`. A missing element fills `Null`; a copy
/// without the relative location is an error.
pub open spec fn spec_fill(
    output: SpecValue,
    copies: Seq<SpecValue>,
    path: Seq<char>,
    rel: Seq<char>,
    upto: int,
) -> Result<Seq<SpecValue>, SpecError>
    decreases upto,
{
    if upto <= 0 {
        Ok(copies)
    } else {
        match spec_fill(output, copies, path, rel, upto - 1) {
            Result::Err(e) => Err(e),
            Result::Ok(cs) => {
                let i = upto - 1;
                let elem = match spec_pointer(output, spec_format_key(path, dec_of(i as nat))) {
                    Option::None => SpecValue::Null,
                    Option::Some(x) => x,
                };
                if 0 <= i < cs.len() {
                    match spec_pointer_set(cs[i], rel, elem) {
                        Option::None => Err(SpecError::SplitTargetNotFound(rel)),
                        Option::Some(c2) => Ok(cs.update(i, c2)),
                    }
                } else {
                    Ok(cs)
                }
            },
        }
    }
}

/// An error while filling the first copies stays an error for more.
pub proof fn lemma_fill_err_monotone(
    output: SpecValue,
    copies: Seq<SpecValue>,
    path: Seq<char>,
    rel: Seq<char>,
    k: int,
    k2: int,
)
    requires
        k <= k2,
        spec_fill(output, copies, path, rel, k) is Err,
    ensures
        spec_fill(output, copies, path, rel, k2) == spec_fill(output, copies, path, rel, k),
    decreases k2 - k,
{
    if k < k2 {
        lemma_fill_err_monotone(output, copies, path, rel, k, k2 - 1);
    }
}

/// The pop-distribute-replace loop of the split procedure: recorded
/// locations are popped and distributed until the parent's own path
/// comes up, and the object at the parent path is then replaced by the
/// array of copies.
pub open spec fn spec_split_loop(
    output: SpecValue,
    n: int,
    visited: Seq<Seq<char>>,
    pp: Seq<char>,
    pn: Seq<char>,
    copies: Seq<SpecValue>,
) -> Result<(SpecValue, Seq<Seq<char>>), SpecError>
    decreases visited.len(),
{
    if visited.len() == 0 {
        Err(SpecError::SplitPathExhausted)
    } else {
        let path = visited.last();
        let vis = visited.drop_last();
        if path == pp {
            match spec_pointer_set(output, pp, SpecValue::Array(copies)) {
                Option::None => Err(SpecError::ParentNotFound(pp)),
                Option::Some(o) => Ok((o, vis)),
            }
        } else {
            match spec_rel_after(path, pn) {
                Option::None => Err(SpecError::SplitPathMismatch(path)),
                Option::Some(rel) => match spec_fill(output, copies, path, rel, n) {
                    Result::Err(e) => Err(e),
                    Result::Ok(cs) => spec_split_loop(output, n, vis, pp, pn, cs),
                },
            }
        }
    }
}

/// What splitting the object at `pp` into `n` copies does to the
/// output tree and the stack of recorded locations.
pub open spec fn spec_split(
    output: SpecValue,
    n: int,
    visited: Seq<Seq<char>>,
    pp: Seq<char>,
    pn: Seq<char>,
) -> Result<(SpecValue, Seq<Seq<char>>), SpecError> {
    if visited.len() == 0 {
        Err(SpecError::SplitPathExhausted)
    } else {
        match spec_pointer(output, pp) {
            Option::None => Err(SpecError::ParentNotFound(pp)),
            Option::Some(proto) => spec_split_loop(
                output,
                n,
                visited,
                pp,
                pn,
                Seq::new(n as nat, |i: int| proto),
            ),
        }
    }
}

fn split_core(output: Value, array_len: usize, visited: Vec<String>, pp: &str, pn: &str) -> (r:
    Result<(Value, Vec<String>), TransformError>)
    ensures
        ({
            let sr = spec_split(output@, array_len as int, views_of(visited@), pp@, pn@);
            match r {
                Result::Ok((o, vis)) => sr matches Ok(p) && p.0 == o@ && p.1 =~= views_of(vis@),
                Result::Err(e) => sr matches Err(se) && se == e@,
            }
        }),
{
    let ghost out0 = output@;
    let ghost vis0 = views_of(visited@);
    let ghost n = array_len as int;
    let mut visited = visited;
    let proto = match ptr_get(&output, pp) {
        Option::Some(p) => p.duplicate(),
        Option::None => {
            if visited.len() == 0 {
                return Err(TransformError::SplitPathExhausted);
            }
            return Err(TransformError::ParentNotFound(String::from_str(pp)));
        },
    };
    let mut copies: Vec<Value> = Vec::new();
    let mut ci: usize = 0;
    #[verifier::loop_isolation(false)]
    while ci < array_len
        invariant
            ci <= array_len,
            copies@.len() == ci as int,
            forall|j: int| 0 <= j < ci as int ==> copies@[j]@ == proto@,
        decreases array_len - ci,
    {
        copies.push(proto.duplicate());
        ci = ci + 1;
    }
    let ghost copies0 = Seq::new(n as nat, |i: int| spec_pointer(out0, pp@)->Some_0);
    proof {
        assert(elems_view(copies@) =~= copies0);
    }
    let mut path = match visited.pop() {
        Option::Some(p) => p,
        Option::None => {
            return Err(TransformError::SplitPathExhausted);
        },
    };
    let ghost goal = spec_split_loop(out0, n, vis0, pp@, pn@, copies0);
    proof {
        assert(views_of(visited@).push(path@) =~= vis0);
    }
    #[verifier::loop_isolation(false)]
    loop
        invariant
            spec_split_loop(out0, n, views_of(visited@).push(path@), pp@, pn@, elems_view(copies@))
                == goal,
            out0 == output@,
            copies@.len() == n,
        decreases visited@.len(),
    {
        let ghost vis_hat = views_of(visited@).push(path@);
        proof {
            assert(vis_hat.last() == path@);
            assert(vis_hat.drop_last() =~= views_of(visited@));
        }
        if str_eq(path.as_str(), pp) {
            proof {
                lemma_view_array(copies);
            }
            match ptr_set(&output, pp, Value::Array(copies)) {
                Option::Some(o) => {
                    return Ok((o, visited));
                },
                Option::None => {
                    return Err(TransformError::ParentNotFound(String::from_str(pp)));
                },
            }
        }
        let rel = match find_str(path.as_str(), pn) {
            Option::Some(j) => {
                let plen = path.as_str().unicode_len();
                let pnlen = pn.unicode_len();
                proof {
                    crate::strutil::lemma_find_from_found(path@, pn@, 0);
                }
                path.as_str().substring_char(j + pnlen, plen)
            },
            Option::None => {
                return Err(TransformError::SplitPathMismatch(path));
            },
        };
        let ghost copies_in = elems_view(copies@);
        let mut i: usize = 0;
        #[verifier::loop_isolation(false)]
        while i < array_len
            invariant
                i <= array_len,
                copies@.len() == n,
                spec_fill(out0, copies_in, path@, rel@, i as int) == Result::<
                    Seq<SpecValue>,
                    SpecError,
                >::Ok(elems_view(copies@)),
            decreases array_len - i,
        {
            let istr = dec_string(i);
            let ipath = format_key(path.as_str(), istr.as_str());
            let elem = match ptr_get(&output, ipath.as_str()) {
                Option::Some(x) => x.duplicate(),
                Option::None => Value::Null,
            };
            let ghost cs = elems_view(copies@);
            let updated = match ptr_set(&copies[i], rel, elem) {
                Option::Some(c2) => c2,
                Option::None => {
                    proof {
                        assert(spec_fill(out0, copies_in, path@, rel@, i + 1)
                            == Result::<Seq<SpecValue>, SpecError>::Err(
                            SpecError::SplitTargetNotFound(rel@),
                        ));
                        lemma_fill_err_monotone(out0, copies_in, path@, rel@, i + 1, n);
                    }
                    return Err(TransformError::SplitTargetNotFound(String::from_str(rel)));
                },
            };
            let _ = copies.remove(i);
            copies.insert(i, updated);
            proof {
                assert(elems_view(copies@) =~= cs.update(i as int, updated@));
            }
            i = i + 1;
        }
        let ghost filled = spec_fill(out0, copies_in, path@, rel@, n);
        proof {
            assert(filled == Result::<Seq<SpecValue>, SpecError>::Ok(elems_view(copies@)));
            assert(spec_rel_after(path@, pn@) == Some(rel@));
            assert(vis_hat.drop_last() =~= views_of(visited@));
            assert(goal == spec_split_loop(
                out0,
                n,
                views_of(visited@),
                pp@,
                pn@,
                elems_view(copies@),
            ));
        }
        path = match visited.pop() {
            Option::Some(p) => p,
            Option::None => {
                return Err(TransformError::SplitPathExhausted);
            },
        };
        proof {
            assert(views_of(visited@).push(path@) =~= vis_hat.drop_last());
        }
    }
}

/// Splits the object at `path_to_array_parent_obj` into an array of
/// `array_len` copies, each holding one element of every spread array
/// recorded on `visited` since the object was entered; see
/// [`spec_split`]. On failure the output and the stack are unchanged.
pub fn split_obj_to_array(
    output: &mut Value,
    array_len: usize,
    visited: &mut Vec<String>,
    path_to_array_parent_obj: &str,
    parent_obj_name: &str,
) -> (r: Result<(), TransformError>)
    ensures
        ({
            let sr = spec_split(
                old(output)@,
                array_len as int,
                views_of(old(visited)@),
                path_to_array_parent_obj@,
                parent_obj_name@,
            );
            match r {
                Result::Ok(()) => sr matches Ok(p) && p.0 == final(output)@ && p.1 =~= views_of(
                    final(visited)@,
                ),
                Result::Err(e) => (sr matches Err(se) && se == e@) && final(output)@ == old(
                    output,
                )@ && final(visited)@ == old(visited)@,
            }
        }),
{
    let out_local = output.duplicate();
    let vis_local = dup_strings(visited);
    match split_core(out_local, array_len, vis_local, path_to_array_parent_obj, parent_obj_name) {
        Result::Ok((o, vis)) => {
            *output = o;
            *visited = vis;
            Ok(())
        },
        Result::Err(e) => Err(e),
    }
}

fn dup_strings(v: &Vec<String>) -> (r: Vec<String>)
    ensures
        views_of(r@) =~= views_of(v@),
        r@.len() == v@.len(),
{
    let mut out: Vec<String> = Vec::new();
    let mut i: usize = 0;
    #[verifier::loop_isolation(false)]
    while i < v.len()
        invariant
            i <= v.len(),
            out@.len() == i as int,
            forall|j: int| 0 <= j < i as int ==> out@[j]@ == v@[j]@,
        decreases v.len() - i,
    {
        out.push(v[i].clone());
        i = i + 1;
    }
    out
}

/// Renaming a decorated key in the object that `cp` addresses: the
/// cleaned key is inserted with the decorated key's value, and the
/// decorated key is then removed, the last field swapping into its
/// place. A freshly appended cleaned key therefore ends up exactly
/// where the decorated key stood.
pub open spec fn spec_rename_at(
    output: SpecValue,
    cp: Seq<char>,
    key: Seq<char>,
    ck: Seq<char>,
) -> Result<SpecValue, SpecError> {
    match spec_pointer(output, cp) {
        Option::None => Err(SpecError::ParentNotFound(cp)),
        Option::Some(parent) => match parent {
            SpecValue::Object(pm) => match obj_get(pm, key) {
                Option::None => Err(SpecError::KeyVanished(key)),
                Option::Some(val) => {
                    let pm1 = obj_insert(pm, ck, val);
                    if obj_find(pm1, key) is None {
                        Err(SpecError::KeyVanished(key))
                    } else {
                        let pm2 = obj_swap_remove(pm1, key);
                        match spec_pointer_set(output, cp, SpecValue::Object(pm2)) {
                            Option::None => Err(SpecError::ParentNotFound(cp)),
                            Option::Some(o2) => Ok(o2),
                        }
                    }
                },
            },
            _ => Err(SpecError::ParentNotObject(cp)),
        },
    }
}

/// What the conversion walk does to the scratch state at one node of
/// the snapshot. Entering an object under an array-convertible key
/// renames the key and records its cleaned location; leaving it pops
/// one recorded length and splits the object. A non-object under a
/// spread key is renamed, its length (when it is an array) and its
/// cleaned location recorded.
pub open spec fn spec_walk(
    node: SpecValue,
    st: SpecWalkState,
    xpath: Seq<char>,
    key: Seq<char>,
) -> Result<SpecWalkState, SpecError>
    decreases node,
{
    match node {
        SpecValue::Object(m) => {
            let step1: Result<SpecWalkState, SpecError> = if spec_is_conv(key) {
                let cp = spec_clean_path(xpath);
                let ck = spec_clean_key(key);
                match spec_rename_at(st.output, cp, key, ck) {
                    Result::Err(e) => Err(e),
                    Result::Ok(o2) => Ok(
                        SpecWalkState {
                            output: o2,
                            visited: st.visited.push(spec_format_key(cp, ck)),
                            lens: st.lens,
                        },
                    ),
                }
            } else {
                Ok(st)
            };
            match step1 {
                Result::Err(e) => Err(e),
                Result::Ok(st1) => match spec_walk_fields(m, st1, spec_format_key(xpath, key)) {
                    Result::Err(e) => Err(e),
                    Result::Ok(st2) => if spec_is_conv(key) {
                        if st2.lens.len() == 0 {
                            Err(SpecError::MissingSpreadArray(key))
                        } else {
                            match spec_split(
                                st2.output,
                                st2.lens.last(),
                                st2.visited,
                                spec_clean_path(spec_format_key(xpath, key)),
                                spec_clean_key(key),
                            ) {
                                Result::Err(e) => Err(e),
                                Result::Ok(p) => Ok(
                                    SpecWalkState {
                                        output: p.0,
                                        visited: p.1,
                                        lens: st2.lens.drop_last(),
                                    },
                                ),
                            }
                        }
                    } else {
                        Ok(st2)
                    },
                },
            }
        },
        _ => {
            if spec_is_spread(key) {
                let cp = spec_clean_path(xpath);
                let ck = spec_clean_key(key);
                match spec_rename_at(st.output, cp, key, ck) {
                    Result::Err(e) => Err(e),
                    Result::Ok(o2) => {
                        let lens2 = if node is Array {
                            st.lens.push(node->Array_0.len() as int)
                        } else {
                            st.lens
                        };
                        Ok(
                            SpecWalkState {
                                output: o2,
                                visited: st.visited.push(spec_format_key(cp, ck)),
                                lens: lens2,
                            },
                        )
                    },
                }
            } else {
                Ok(st)
            }
        },
    }
}

/// The walk folded over an object's fields, in order.
pub open spec fn spec_walk_fields(
    m: Seq<(Seq<char>, SpecValue)>,
    st: SpecWalkState,
    xpath: Seq<char>,
) -> Result<SpecWalkState, SpecError>
    decreases m,
{
    if m.len() == 0 {
        Ok(st)
    } else {
        match spec_walk(m.first().1, st, xpath, m.first().0) {
            Result::Err(e) => Err(e),
            Result::Ok(st1) => spec_walk_fields(m.drop_first(), st1, xpath),
        }
    }
}

fn rename_at(output: &Value, cp: &str, key: &str, ck: &str) -> (r: Result<Value, TransformError>)
    ensures
        ({
            let sr = spec_rename_at(output@, cp@, key@, ck@);
            match r {
                Result::Ok(o2) => sr matches Ok(so) && so == o2@,
                Result::Err(e) => sr matches Err(se) && se == e@,
            }
        }),
{
    match ptr_get(output, cp) {
        Option::None => Err(TransformError::ParentNotFound(String::from_str(cp))),
        Option::Some(pv) => match pv {
            Value::Object(pm) => {
                proof {
                    lemma_view_object(*pm);
                }
                match obj_lookup(pm, key) {
                    Option::None => Err(TransformError::KeyVanished(String::from_str(key))),
                    Option::Some(val) => {
                        let vald = val.duplicate();
                        let mut pm2 = dup_fields(pm);
                        obj_insert_exec(&mut pm2, ck, vald);
                        let removed = obj_swap_remove_exec(&mut pm2, key);
                        if !removed {
                            return Err(TransformError::KeyVanished(String::from_str(key)));
                        }
                        proof {
                            lemma_view_object(pm2);
                        }
                        match ptr_set(output, cp, Value::Object(pm2)) {
                            Option::None => Err(
                                TransformError::ParentNotFound(String::from_str(cp)),
                            ),
                            Option::Some(o2) => Ok(o2),
                        }
                    },
                }
            },
            _ => Err(TransformError::ParentNotObject(String::from_str(cp))),
        },
    }
}

fn walk_value(
    node: &Value,
    output: Value,
    xpath: &str,
    key: &str,
    visited: Vec<String>,
    lens: Vec<usize>,
) -> (r: Result<(Value, Vec<String>, Vec<usize>), TransformError>)
    ensures
        ({
            let sr = spec_walk(
                node@,
                SpecWalkState {
                    output: output@,
                    visited: views_of(visited@),
                    lens: lens_view(lens@),
                },
                xpath@,
                key@,
            );
            match r {
                Result::Ok((o, v, l)) => sr matches Ok(st) && st.output == o@ && st.visited
                    =~= views_of(v@) && st.lens =~= lens_view(l@),
                Result::Err(e) => sr matches Err(se) && se == e@,
            }
        }),
    decreases *node,
{
    let ghost st0 = SpecWalkState {
        output: output@,
        visited: views_of(visited@),
        lens: lens_view(lens@),
    };
    let mut st_out = output;
    let mut st_vis = visited;
    let mut st_lens = lens;
    match node {
        Value::Object(m) => {
            proof {
                lemma_view_object(*m);
            }
            let ghost mv = fields_view(m@);
            let conv = is_obj_to_be_converted_to_array(key);
            if conv {
                let cp = match clean_path(xpath) {
                    Result::Ok(p) => p,
                    Result::Err(e) => {
                        return Err(e);
                    },
                };
                let ck = match clean_key(key) {
                    Result::Ok(c) => c,
                    Result::Err(e) => {
                        return Err(e);
                    },
                };
                match rename_at(&st_out, cp.as_str(), key, ck) {
                    Result::Ok(o2) => {
                        st_out = o2;
                    },
                    Result::Err(e) => {
                        return Err(e);
                    },
                }
                st_vis.push(format_key(cp.as_str(), ck));
            }
            let ghost st1 = SpecWalkState {
                output: st_out@,
                visited: views_of(st_vis@),
                lens: lens_view(st_lens@),
            };
            proof {
                if spec_is_conv(key@) {
                    let cp = spec_clean_path(xpath@);
                    let ck = spec_clean_key(key@);
                    assert(views_of(st_vis@) =~= st0.visited.push(spec_format_key(cp, ck)));
                    assert(lens_view(st_lens@) =~= st0.lens);
                } else {
                    assert(st1 =~= st0);
                }
            }
            let xp2 = format_key(xpath, key);
            let ghost whole_fields = spec_walk_fields(mv, st1, spec_format_key(xpath@, key@));
            let mut i: usize = 0;
            proof {
                assert(mv.skip(0) =~= mv);
            }
            #[verifier::loop_isolation(false)]
            while i < m.len()
                invariant
                    0 <= i <= m.len(),
                    spec_walk_fields(
                        mv.skip(i as int),
                        SpecWalkState {
                            output: st_out@,
                            visited: views_of(st_vis@),
                            lens: lens_view(st_lens@),
                        },
                        spec_format_key(xpath@, key@),
                    ) == whole_fields,
                decreases m.len() - i,
            {
                let ghost tailpre = mv.skip(i as int);
                proof {
                    assert(decreases_to!(*node => node->Object_0));
                    assert(decreases_to!(node->Object_0 => node->Object_0[i as int]));
                    assert(decreases_to!(node->Object_0[i as int] => node->Object_0[i as int].1));
                    assert(tailpre.len() > 0);
                    assert(tailpre.first() == mv[i as int]);
                    assert(tailpre.drop_first() =~= mv.skip(i + 1));
                }
                let ghost prev_st = SpecWalkState {
                    output: st_out@,
                    visited: views_of(st_vis@),
                    lens: lens_view(st_lens@),
                };
                let entry = &m[i];
                match walk_value(&entry.1, st_out, xp2.as_str(), entry.0.as_str(), st_vis, st_lens) {
                    Result::Ok((o, v, l)) => {
                        st_out = o;
                        st_vis = v;
                        st_lens = l;
                        proof {
                            assert(SpecWalkState {
                                output: st_out@,
                                visited: views_of(st_vis@),
                                lens: lens_view(st_lens@),
                            } =~= spec_walk(
                                mv[i as int].1,
                                prev_st,
                                spec_format_key(xpath@, key@),
                                mv[i as int].0,
                            )->Ok_0);
                        }
                    },
                    Result::Err(e) => {
                        return Err(e);
                    },
                }
                i = i + 1;
            }
            proof {
                assert(mv.skip(i as int).len() == 0);
            }
            if conv {
                let nl = match st_lens.pop() {
                    Option::Some(nl) => nl,
                    Option::None => {
                        return Err(TransformError::MissingSpreadArray(String::from_str(key)));
                    },
                };
                let fk = format_key(xpath, key);
                let cp2 = match clean_path(fk.as_str()) {
                    Result::Ok(p) => p,
                    Result::Err(e) => {
                        return Err(e);
                    },
                };
                let ck2 = match clean_key(key) {
                    Result::Ok(c) => c,
                    Result::Err(e) => {
                        return Err(e);
                    },
                };
                proof {
                    assert(lens_view(st_lens@) =~= whole_fields->Ok_0.lens.drop_last());
                    assert(nl as int == whole_fields->Ok_0.lens.last());
                }
                match split_core(st_out, nl, st_vis, cp2.as_str(), ck2) {
                    Result::Ok((o, v)) => {
                        return Ok((o, v, st_lens));
                    },
                    Result::Err(e) => {
                        return Err(e);
                    },
                }
            }
            Ok((st_out, st_vis, st_lens))
        },
        _ => {
            if is_to_be_spread_array(key) {
                let cp = match clean_path(xpath) {
                    Result::Ok(p) => p,
                    Result::Err(e) => {
                        return Err(e);
                    },
                };
                let ck = match clean_key(key) {
                    Result::Ok(c) => c,
                    Result::Err(e) => {
                        return Err(e);
                    },
                };
                match rename_at(&st_out, cp.as_str(), key, ck) {
                    Result::Ok(o2) => {
                        st_out = o2;
                    },
                    Result::Err(e) => {
                        return Err(e);
                    },
                }
                match node {
                    Value::Array(arr) => {
                        proof {
                            lemma_view_array(*arr);
                        }
                        st_lens.push(arr.len());
                        proof {
                            assert(lens_view(st_lens@) =~= st0.lens.push(
                                node@->Array_0.len() as int,
                            ));
                        }
                    },
                    _ => {},
                }
                st_vis.push(format_key(cp.as_str(), ck));
                proof {
                    assert(views_of(st_vis@) =~= st0.visited.push(
                        spec_format_key(spec_clean_path(xpath@), spec_clean_key(key@)),
                    ));
                }
                Ok((st_out, st_vis, st_lens))
            } else {
                Ok((st_out, st_vis, st_lens))
            }
        },
    }
}

/// Walks the snapshot beside the live output, renaming decorated keys,
/// recording spread locations and lengths, and splitting every
/// array-convertible object on the way out; see [`spec_walk`]. On
/// failure the output and both stacks are unchanged.
pub fn process_array_convertible_objs(
    input: &Value,
    output: &mut Value,
    xpath: &str,
    key: &str,
    visited: &mut Vec<String>,
    array_lens: &mut Vec<usize>,
) -> (r: Result<(), TransformError>)
    ensures
        ({
            let sr = spec_walk(
                input@,
                SpecWalkState {
                    output: old(output)@,
                    visited: views_of(old(visited)@),
                    lens: lens_view(old(array_lens)@),
                },
                xpath@,
                key@,
            );
            match r {
                Result::Ok(()) => sr matches Ok(st) && st.output == final(output)@ && st.visited
                    =~= views_of(final(visited)@) && st.lens =~= lens_view(final(array_lens)@),
                Result::Err(e) => (sr matches Err(se) && se == e@) && final(output)@ == old(
                    output,
                )@ && final(visited)@ == old(visited)@ && final(array_lens)@ == old(array_lens)@,
            }
        }),
{
    let out_local = output.duplicate();
    let vis_local = dup_strings(visited);
    let lens_local = dup_lens(array_lens);
    proof {
        assert(SpecWalkState {
            output: out_local@,
            visited: views_of(vis_local@),
            lens: lens_view(lens_local@),
        } =~= SpecWalkState {
            output: old(output)@,
            visited: views_of(old(visited)@),
            lens: lens_view(old(array_lens)@),
        });
    }
    match walk_value(input, out_local, xpath, key, vis_local, lens_local) {
        Result::Ok((o, v, l)) => {
            *output = o;
            *visited = v;
            *array_lens = l;
            Ok(())
        },
        Result::Err(e) => Err(e),
    }
}

fn dup_lens(v: &Vec<usize>) -> (r: Vec<usize>)
    ensures
        r@ =~= v@,
{
    let mut out: Vec<usize> = Vec::new();
    let mut i: usize = 0;
    #[verifier::loop_isolation(false)]
    while i < v.len()
        invariant
            i <= v.len(),
            out@ =~= v@.subrange(0, i as int),
        decreases v.len() - i,
    {
        out.push(v[i]);
        proof {
            assert(out@ =~= v@.subrange(0, i + 1));
        }
        i = i + 1;
    }
    proof {
        assert(v@.subrange(0, i as int) =~= v@);
    }
    out
}


} // verus!
