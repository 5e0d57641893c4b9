//! The engine's laws: properties that relate several operations, each
//! proved once and for all inputs its statement admits.

use vstd::prelude::*;
use crate::convert::{spec_walk, spec_walk_fields, SpecWalkState};
use crate::decorate::{
    spec_clean_key, spec_clean_path, spec_format_key, spec_is_conv, spec_is_spread, spread_marker,
};
use crate::errors::SpecError;
use crate::objops::{obj_find, obj_find_from, obj_get};
use crate::pointer::{spec_pointer, spec_pointer_set, spec_ptr_get, spec_ptr_set};
use crate::resolve::{spec_collect, spec_resolve};
use crate::strutil::{find_from, matches_at, split_char};
use crate::substitute::{spec_is_literal, spec_strip_quotes, spec_substitute};
use crate::value::SpecValue;

verus! {

/// A single-quoted template leaf resolves to its quote-stripped text,
/// whatever the input document holds.
pub proof fn lemma_literal_passthrough(input: SpecValue, s: Seq<char>)
    requires
        spec_is_literal(s),
    ensures
        spec_substitute(input, SpecValue::Text(s)) == Result::<SpecValue, SpecError>::Ok(
            SpecValue::Text(spec_strip_quotes(s)),
        ),
{
}

/// The length of the nested array a field holds in one element, zero
/// where there is none.
pub open spec fn inner_len(e: SpecValue, f: Seq<char>) -> nat {
    match e {
        SpecValue::Object(m) => match obj_get(m, f) {
            Option::Some(SpecValue::Array(b)) => b.len(),
            _ => 0,
        },
        _ => 0,
    }
}

/// The concatenation of the nested arrays a field holds across the
/// elements.
pub open spec fn flat_of(a: Seq<SpecValue>, f: Seq<char>) -> Seq<SpecValue>
    decreases a.len(),
{
    if a.len() == 0 {
        Seq::empty()
    } else {
        (match a.first() {
            SpecValue::Object(m) => match obj_get(m, f) {
                Option::Some(SpecValue::Array(b)) => b,
                _ => Seq::empty(),
            },
            _ => Seq::empty(),
        }) + flat_of(a.drop_first(), f)
    }
}

/// The total element count of those nested arrays.
pub open spec fn flat_len(a: Seq<SpecValue>, f: Seq<char>) -> nat
    decreases a.len(),
{
    if a.len() == 0 {
        0
    } else {
        inner_len(a.first(), f) + flat_len(a.drop_first(), f)
    }
}

/// Resolving a field through an array of objects whose field values are
/// themselves arrays yields a single flat array: the concatenation of
/// the nested arrays, one level deep, its length the total count of
/// their elements.
pub proof fn lemma_resolve_flattens(a: Seq<SpecValue>, f: Seq<char>)
    requires
        forall|i: int|
            0 <= i < a.len() ==> ((#[trigger] a[i]) matches SpecValue::Object(m) && (obj_get(m, f)
                matches Some(v) && v is Array)),
    ensures
        spec_collect(a, f) == Result::<Seq<SpecValue>, SpecError>::Ok(flat_of(a, f)),
        flat_of(a, f).len() == flat_len(a, f),
        spec_resolve(seq![f], SpecValue::Array(a)) == Result::<SpecValue, SpecError>::Ok(
            SpecValue::Array(flat_of(a, f)),
        ),
    decreases a.len(),
{
    if a.len() == 0 {
        assert(flat_of(a, f) =~= Seq::<SpecValue>::empty());
    } else {
        assert(a[0] == a.first());
        assert(forall|i: int| 0 <= i < a.drop_first().len() ==> a.drop_first()[i] == a[i + 1]);
        lemma_resolve_flattens(a.drop_first(), f);
        let b = (match a.first() {
            SpecValue::Object(m) => match obj_get(m, f) {
                Option::Some(SpecValue::Array(bb)) => bb,
                _ => Seq::<SpecValue>::empty(),
            },
            _ => Seq::<SpecValue>::empty(),
        });
        let val = (match a.first() {
            SpecValue::Object(m) => obj_get(m, f),
            _ => None::<SpecValue>,
        })->Some_0;
        assert(val is Array && val->Array_0 == b);
        assert(flat_of(a, f) == b + flat_of(a.drop_first(), f));
        assert(spec_collect(a, f) == Result::<Seq<SpecValue>, SpecError>::Ok(
            b + flat_of(a.drop_first(), f),
        ));
        assert(inner_len(a.first(), f) == b.len());
    }
    let segs = seq![f];
    assert(segs.first() == f);
    assert(segs.drop_first() =~= Seq::<Seq<char>>::empty());
    assert(spec_resolve(Seq::<Seq<char>>::empty(), SpecValue::Array(flat_of(a, f)))
        == Result::<SpecValue, SpecError>::Ok(SpecValue::Array(flat_of(a, f))));
}

/// Resolving a segment against an object that lacks the field fails
/// with the field-not-found error naming that field and that object.
pub proof fn lemma_missing_field_error(
    m: Seq<(Seq<char>, SpecValue)>,
    segs: Seq<Seq<char>>,
)
    requires
        segs.len() > 0,
        obj_get(m, segs.first()) is None,
    ensures
        spec_resolve(segs, SpecValue::Object(m)) == Result::<SpecValue, SpecError>::Err(
            SpecError::FieldNotFound(segs.first(), SpecValue::Object(m)),
        ),
{
}

/// A field the conversion walk leaves alone: its value is no object and
/// its key carries no spread marker.
pub open spec fn inert_field(k: Seq<char>, v: SpecValue) -> bool {
    !(v is Object) && !spec_is_spread(k)
}

/// The walk does nothing at an inert field.
pub proof fn lemma_walk_inert(v: SpecValue, st: SpecWalkState, xpath: Seq<char>, k: Seq<char>)
    requires
        inert_field(k, v),
    ensures
        spec_walk(v, st, xpath, k) == Result::<SpecWalkState, SpecError>::Ok(st),
{
}

/// The walk does nothing across a field list of inert fields.
pub proof fn lemma_walk_fields_inert(
    m: Seq<(Seq<char>, SpecValue)>,
    st: SpecWalkState,
    xpath: Seq<char>,
)
    requires
        forall|i: int| 0 <= i < m.len() ==> inert_field((#[trigger] m[i]).0, m[i].1),
    ensures
        spec_walk_fields(m, st, xpath) == Result::<SpecWalkState, SpecError>::Ok(st),
    decreases m.len(),
{
    if m.len() > 0 {
        assert(m[0] == m.first());
        lemma_walk_inert(m.first().1, st, xpath, m.first().0);
        assert(forall|i: int| 0 <= i < m.drop_first().len() ==> m.drop_first()[i] == m[i + 1]);
        lemma_walk_fields_inert(m.drop_first(), st, xpath);
    }
}

/// An array-convertible object with no spread array anywhere beneath it
/// fails with the missing-spread-array error naming its decorated key:
/// here for an object all of whose fields are inert, so that nothing
/// records a length.
pub proof fn lemma_missing_spread_array(
    m: Seq<(Seq<char>, SpecValue)>,
    st: SpecWalkState,
    xpath: Seq<char>,
    key: Seq<char>,
)
    requires
        spec_is_conv(key),
        st.lens.len() == 0,
        crate::convert::spec_rename_at(
            st.output,
            crate::decorate::spec_clean_path(xpath),
            key,
            spec_clean_key(key),
        ) is Ok,
        forall|i: int| 0 <= i < m.len() ==> inert_field((#[trigger] m[i]).0, m[i].1),
    ensures
        spec_walk(SpecValue::Object(m), st, xpath, key) == Result::<SpecWalkState, SpecError>::Err(
            SpecError::MissingSpreadArray(key),
        ),
{
    let cp = crate::decorate::spec_clean_path(xpath);
    let ck = spec_clean_key(key);
    let o2 = crate::convert::spec_rename_at(st.output, cp, key, ck)->Ok_0;
    let st1 = SpecWalkState {
        output: o2,
        visited: st.visited.push(crate::decorate::spec_format_key(cp, ck)),
        lens: st.lens,
    };
    lemma_walk_fields_inert(m, st1, crate::decorate::spec_format_key(xpath, key));
}

/// A piece of text without any slash.
pub open spec fn no_slash(w: Seq<char>) -> bool {
    forall|j: int| 0 <= j < w.len() ==> w[j] != '/'
}

proof fn lemma_no_sep_split(w: Seq<char>)
    requires
        no_slash(w),
    ensures
        split_char(w, '/') == seq![w],
{
    crate::strutil::lemma_find_from_found(w, seq!['/'], 0);
    match find_from(w, seq!['/'], 0) {
        Option::None => {},
        Option::Some(i) => {
            assert(matches_at(w, seq!['/'], i));
            assert(w.subrange(i, i + 1)[0] == w[i]);
            assert(false);
        },
    }
}

proof fn lemma_split_sep(u: Seq<char>, rest: Seq<char>)
    requires
        no_slash(u),
    ensures
        split_char(u + seq!['/'] + rest, '/') == seq![u] + split_char(rest, '/'),
{
    let p = u + seq!['/'] + rest;
    assert(matches_at(p, seq!['/'], u.len() as int)) by {
        assert(p.subrange(u.len() as int, u.len() as int + 1) =~= seq!['/']);
    }
    assert forall|j: int| 0 <= j < u.len() implies !matches_at(p, seq!['/'], j) by {
        if matches_at(p, seq!['/'], j) {
            assert(p.subrange(j, j + 1)[0] == p[j]);
            assert(p[j] == u[j]);
        }
    }
    crate::strutil::lemma_find_from_step(p, seq!['/'], 0, u.len() as int);
    assert(find_from(p, seq!['/'], 0) == Some(u.len() as int));
    assert(p.subrange(0, u.len() as int) =~= u);
    assert(p.subrange(u.len() as int + 1, p.len() as int) =~= rest);
    assert(split_char(p, '/') == seq![u] + split_char(rest, '/'));
}

/// The cleaned form of a one-segment path.
proof fn lemma_clean_path_one(key: Seq<char>)
    requires
        no_slash(key),
        key.len() > 0,
    ensures
        spec_clean_path(seq!['/'] + key) == seq!['/'] + spec_clean_key(key),
{
    let p = seq!['/'] + key;
    lemma_split_sep(Seq::empty(), key);
    assert(Seq::empty() + seq!['/'] + key =~= p);
    lemma_no_sep_split(key);
    assert(split_char(p, '/') == seq![Seq::<char>::empty()] + seq![key]);
    let toks = split_char(p, '/');
    assert(toks[0].len() == 0);
    assert(toks.drop_first() =~= seq![key]);
    let j1 = crate::decorate::join_cleaned(seq![key]);
    assert(seq![key].drop_last() =~= Seq::<Seq<char>>::empty());
    assert(crate::decorate::join_cleaned(Seq::<Seq<char>>::empty()) == Seq::<char>::empty());
    assert(j1 == Seq::<char>::empty() + seq!['/'] + spec_clean_key(key));
    assert(Seq::<char>::empty() + seq!['/'] + spec_clean_key(key) =~= seq!['/'] + spec_clean_key(
        key,
    ));
}

/// A pointer of one object key, reading and replacing.
proof fn lemma_pointer_one(rf: Seq<(Seq<char>, SpecValue)>, ck: Seq<char>, nv: SpecValue)
    requires
        no_slash(ck),
        ck.len() > 0,
    ensures
        spec_pointer(SpecValue::Object(rf), seq!['/'] + ck) == obj_get(rf, ck),
        spec_pointer_set(SpecValue::Object(rf), seq!['/'] + ck, nv) == (match obj_find(rf, ck) {
            Option::None => None::<SpecValue>,
            Option::Some(i) => Some(SpecValue::Object(rf.update(i, (rf[i].0, nv)))),
        }),
{
    let p = seq!['/'] + ck;
    assert(p[0] == '/');
    lemma_split_sep(Seq::empty(), ck);
    assert(Seq::empty() + seq!['/'] + ck =~= p);
    lemma_no_sep_split(ck);
    assert(split_char(p, '/') == seq![Seq::<char>::empty()] + seq![ck]);
    let toks = split_char(p, '/').drop_first();
    assert(toks =~= seq![ck]);
    assert(toks.first() == ck);
    assert(toks.drop_first() =~= Seq::<Seq<char>>::empty());
    match obj_get(rf, ck) {
        Option::None => {},
        Option::Some(c) => {
            assert(spec_ptr_get(c, Seq::<Seq<char>>::empty()) == Some(c));
        },
    }
    match obj_find(rf, ck) {
        Option::None => {},
        Option::Some(i) => {
            crate::objops::lemma_obj_find_found(rf, ck, 0);
            assert(spec_ptr_set(rf[i].1, Seq::<Seq<char>>::empty(), nv) == Some(nv));
        },
    }
}

/// The empty pointer addresses the whole document.
proof fn lemma_ptr_empty(v: SpecValue, nv: SpecValue)
    ensures
        spec_pointer(v, Seq::empty()) == Some(v),
        spec_pointer_set(v, Seq::empty(), nv) == Some(nv),
{
    assert(spec_ptr_get(v, Seq::<Seq<char>>::empty()) == Some(v));
    assert(spec_ptr_set(v, Seq::<Seq<char>>::empty(), nv) == Some(nv));
}

/// Renaming the single key of the root object replaces it in place.
proof fn lemma_rename_root(key: Seq<char>, ck: Seq<char>, inner: SpecValue)
    requires
        ck != key,
    ensures
        crate::convert::spec_rename_at(SpecValue::Object(seq![(key, inner)]), Seq::empty(), key, ck)
            == Result::<SpecValue, SpecError>::Ok(SpecValue::Object(seq![(ck, inner)])),
{
    let rf = seq![(key, inner)];
    lemma_ptr_empty(SpecValue::Object(rf), SpecValue::Null);
    assert(obj_find_from(rf, key, 0) == Some(0int));
    assert(obj_find_from(rf, ck, 1) == None::<int>);
    assert(obj_find_from(rf, ck, 0) == None::<int>);
    let pm1 = rf.push((ck, inner));
    assert(crate::objops::obj_insert(rf, ck, inner) == pm1);
    assert(obj_find_from(pm1, key, 0) == Some(0int));
    let pm2 = crate::objops::obj_swap_remove(pm1, key);
    assert(pm2 =~= seq![(ck, inner)]);
    lemma_ptr_empty(SpecValue::Object(rf), SpecValue::Object(pm2));
}

/// Renaming a field of the object one key below the root replaces that
/// field in place, provided the cleaned name is fresh.
proof fn lemma_rename_below_root(
    ck: Seq<char>,
    ofl: Seq<(Seq<char>, SpecValue)>,
    skey: Seq<char>,
    g: Seq<char>,
    p: int,
)
    requires
        no_slash(ck),
        ck.len() > 0,
        obj_find(ofl, skey) == Some(p),
        obj_find(ofl, g) is None,
    ensures
        crate::convert::spec_rename_at(
            SpecValue::Object(seq![(ck, SpecValue::Object(ofl))]),
            seq!['/'] + ck,
            skey,
            g,
        ) == Result::<SpecValue, SpecError>::Ok(
            SpecValue::Object(seq![(ck, SpecValue::Object(ofl.update(p, (g, ofl[p].1))))]),
        ),
{
    let rf = seq![(ck, SpecValue::Object(ofl))];
    lemma_pointer_one(rf, ck, SpecValue::Null);
    assert(obj_find_from(rf, ck, 0) == Some(0int));
    assert(obj_get(rf, ck) == Some(SpecValue::Object(ofl)));
    crate::objops::lemma_obj_find_found(ofl, skey, 0);
    assert(0 <= p < ofl.len() && ofl[p].0 == skey);
    let val = ofl[p].1;
    assert(obj_get(ofl, skey) == Some(val));
    let pm1 = ofl.push((g, val));
    assert(crate::objops::obj_insert(ofl, g, val) == pm1);
    assert forall|j: int| 0 <= j < p implies pm1[j].0 != skey by {
        crate::objops::lemma_obj_find_found(ofl, skey, 0);
        assert(pm1[j] == ofl[j]);
    }
    crate::objops::lemma_obj_find_step(pm1, skey, 0, p);
    assert(obj_find_from(pm1, skey, p) == Some(p));
    let pm2 = crate::objops::obj_swap_remove(pm1, skey);
    assert(pm2 =~= ofl.update(p, (g, val)));
    let newparent = SpecValue::Object(pm2);
    lemma_pointer_one(rf, ck, newparent);
    assert(rf.update(0, (ck, newparent)) =~= seq![(ck, newparent)]);
    assert(SpecValue::Object(rf.update(0, (ck, newparent))) == SpecValue::Object(
        seq![(ck, SpecValue::Object(ofl.update(p, (g, ofl[p].1))))],
    ));
}

/// The decorated form of a spread key, and what cleaning does to it.
pub open spec fn sp_key(g: Seq<char>) -> Seq<char> {
    spread_marker() + g
}

proof fn lemma_clean_spread_key(g: Seq<char>)
    ensures
        spec_is_spread(sp_key(g)),
        matches_at(sp_key(g), spread_marker(), 0),
        spec_clean_key(sp_key(g)) == g,
{
    let k = sp_key(g);
    assert(k.subrange(0, 3) =~= spread_marker());
    assert(matches_at(k, spread_marker(), 0));
    assert(k.subrange(3, k.len() as int) =~= g);
}

/// The walk of a list of fields splits over concatenation.
proof fn lemma_walk_fields_concat(
    m1: Seq<(Seq<char>, SpecValue)>,
    m2: Seq<(Seq<char>, SpecValue)>,
    st: SpecWalkState,
    xp: Seq<char>,
)
    ensures
        spec_walk_fields(m1 + m2, st, xp) == (match spec_walk_fields(m1, st, xp) {
            Result::Err(e) => Result::<SpecWalkState, SpecError>::Err(e),
            Result::Ok(st1) => spec_walk_fields(m2, st1, xp),
        }),
    decreases m1.len(),
{
    if m1.len() == 0 {
        assert(m1 + m2 =~= m2);
    } else {
        let whole = m1 + m2;
        assert(whole.len() > 0);
        assert(whole.first() == m1.first());
        assert(whole.drop_first() =~= m1.drop_first() + m2);
        match spec_walk(m1.first().1, st, xp, m1.first().0) {
            Result::Err(e) => {},
            Result::Ok(st1) => {
                lemma_walk_fields_concat(m1.drop_first(), m2, st1, xp);
            },
        }
    }
}

/// The walk of one spread-array field: the key is renamed in place in
/// the object below the root, the array's length is recorded, and the
/// cleaned location is pushed.
proof fn lemma_walk_spread(
    xs: Seq<SpecValue>,
    st: SpecWalkState,
    key0: Seq<char>,
    ck: Seq<char>,
    cur: Seq<(Seq<char>, SpecValue)>,
    g: Seq<char>,
    p: int,
)
    requires
        no_slash(key0),
        key0.len() > 0,
        spec_clean_key(key0) == ck,
        no_slash(ck),
        ck.len() > 0,
        g.len() > 0,
        st.output == SpecValue::Object(seq![(ck, SpecValue::Object(cur))]),
        obj_find(cur, sp_key(g)) == Some(p),
        cur[p].1 == SpecValue::Array(xs),
        obj_find(cur, g) is None,
    ensures
        spec_walk(SpecValue::Array(xs), st, seq!['/'] + key0, sp_key(g)) == Result::<
            SpecWalkState,
            SpecError,
        >::Ok(
            SpecWalkState {
                output: SpecValue::Object(
                    seq![(ck, SpecValue::Object(cur.update(p, (g, SpecValue::Array(xs)))))],
                ),
                visited: st.visited.push(seq!['/'] + ck + seq!['/'] + g),
                lens: st.lens.push(xs.len() as int),
            },
        ),
{
    lemma_clean_spread_key(g);
    lemma_clean_path_one(key0);
    let xpath = seq!['/'] + key0;
    let cp = spec_clean_path(xpath);
    assert(cp == seq!['/'] + ck);
    crate::objops::lemma_obj_find_found(cur, sp_key(g), 0);
    assert(cur[p].1 == obj_get(cur, sp_key(g))->Some_0);
    lemma_rename_below_root(ck, cur, sp_key(g), g, p);
    let fk = spec_format_key(cp, g);
    assert(cp.len() > 0);
    assert(fk == cp + seq!['/'] + g);
    assert(cp + seq!['/'] + g =~= seq!['/'] + ck + seq!['/'] + g);
    assert(cur.update(p, (g, cur[p].1)) == cur.update(p, (g, SpecValue::Array(xs))));
}

/// Reading one element of a spread array through the output tree.
proof fn lemma_read_spread_elem(
    ck: Seq<char>,
    g: Seq<char>,
    mprime: Seq<(Seq<char>, SpecValue)>,
    xs: Seq<SpecValue>,
    i: int,
)
    requires
        no_slash(ck),
        ck.len() > 0,
        no_slash(g),
        g.len() > 0,
        obj_get(mprime, g) == Some(SpecValue::Array(xs)),
        0 <= i < xs.len(),
        xs.len() <= usize::MAX,
    ensures
        spec_pointer(
            SpecValue::Object(seq![(ck, SpecValue::Object(mprime))]),
            spec_format_key(seq!['/'] + ck + seq!['/'] + g, crate::strutil::dec_of(i as nat)),
        ) == Some(xs[i]),
{
    let root = SpecValue::Object(seq![(ck, SpecValue::Object(mprime))]);
    let rootf = seq![(ck, SpecValue::Object(mprime))];
    let w = crate::strutil::dec_of(i as nat);
    crate::pointer::lemma_dec_roundtrip(i as nat);
    assert(crate::pointer::spec_parse_index(w) == Some(i));
    assert(w.len() > 0);
    assert(no_slash(w)) by {
        assert(crate::pointer::all_digits(w));
        assert forall|j: int| 0 <= j < w.len() implies w[j] != '/' by {
            assert(crate::pointer::is_digit(w[j]));
        }
    }
    let base = seq!['/'] + ck + seq!['/'] + g;
    let path = spec_format_key(base, w);
    assert(path == base + seq!['/'] + w);
    let rest2 = g + seq!['/'] + w;
    let rest1 = ck + seq!['/'] + rest2;
    assert(path =~= Seq::empty() + seq!['/'] + rest1);
    lemma_split_sep(Seq::empty(), rest1);
    lemma_split_sep(ck, rest2);
    lemma_split_sep(g, w);
    lemma_no_sep_split(w);
    assert(split_char(path, '/') == split_char(Seq::empty() + seq!['/'] + rest1, '/'));
    assert(split_char(path, '/') == seq![Seq::<char>::empty()] + (seq![ck] + (seq![g] + seq![w])));
    let toks = split_char(path, '/').drop_first();
    assert(toks =~= seq![ck, g, w]);
    assert(path[0] == '/');
    assert(path.len() > 0);
    assert(crate::pointer::spec_ptr_tokens(path) == Some(toks)) by {
        assert(split_char(path, '/').drop_first() == toks);
    }
    assert(toks.first() == ck);
    assert(toks.drop_first() =~= seq![g, w]);
    assert(obj_find_from(rootf, ck, 0) == Some(0int));
    assert(obj_get(rootf, ck) == Some(SpecValue::Object(mprime)));
    let t2 = seq![g, w];
    assert(t2.first() == g);
    assert(t2.drop_first() =~= seq![w]);
    let t3 = seq![w];
    assert(t3.first() == w);
    assert(t3.drop_first() =~= Seq::<Seq<char>>::empty());
    assert(spec_ptr_get(xs[i], Seq::<Seq<char>>::empty()) == Some(xs[i]));
    assert(spec_ptr_get(SpecValue::Array(xs), t3) == Some(xs[i]));
    assert(spec_ptr_get(SpecValue::Object(mprime), t2) == Some(xs[i]));
    assert(spec_ptr_get(root, toks) == Some(xs[i]));
}

/// Filling the copies one element each from the spread array, when
/// every copy holds the cleaned key and every element can be read.
proof fn lemma_fill_general(
    root: SpecValue,
    path: Seq<char>,
    g: Seq<char>,
    xs: Seq<SpecValue>,
    copies: Seq<SpecValue>,
    p: int,
    upto: int,
)
    requires
        no_slash(g),
        g.len() > 0,
        copies.len() == xs.len(),
        xs.len() <= usize::MAX,
        forall|i: int|
            0 <= i < xs.len() ==> spec_pointer(
                root,
                spec_format_key(path, crate::strutil::dec_of(i as nat)),
            ) == Some(xs[i]),
        forall|i: int|
            0 <= i < copies.len() ==> (#[trigger] copies[i]) is Object && obj_find(
                copies[i]->Object_0,
                g,
            ) == Some(p),
        0 <= upto <= copies.len(),
    ensures
        crate::convert::spec_fill(root, copies, path, seq!['/'] + g, upto) == Result::<
            Seq<SpecValue>,
            SpecError,
        >::Ok(
            Seq::new(
                copies.len(),
                |i: int|
                    if 0 <= i < upto {
                        SpecValue::Object(copies[i]->Object_0.update(p, (g, xs[i])))
                    } else {
                        copies[i]
                    },
            ),
        ),
    decreases upto,
{
    let rel = seq!['/'] + g;
    let target = Seq::new(
        copies.len(),
        |i: int|
            if 0 <= i < upto {
                SpecValue::Object(copies[i]->Object_0.update(p, (g, xs[i])))
            } else {
                copies[i]
            },
    );
    if upto <= 0 {
        assert(target =~= copies);
    } else {
        lemma_fill_general(root, path, g, xs, copies, p, upto - 1);
        let prev = Seq::new(
            copies.len(),
            |i: int|
                if 0 <= i < upto - 1 {
                    SpecValue::Object(copies[i]->Object_0.update(p, (g, xs[i])))
                } else {
                    copies[i]
                },
        );
        let i = upto - 1;
        assert(prev[i] == copies[i]);
        let fields = copies[i]->Object_0;
        crate::objops::lemma_obj_find_found(fields, g, 0);
        assert(fields[p].0 == g);
        lemma_pointer_one(fields, g, xs[i]);
        assert(spec_pointer_set(copies[i], rel, xs[i]) == Some(
            SpecValue::Object(fields.update(p, (g, xs[i]))),
        )) by {
            assert(fields.update(p, (fields[p].0, xs[i])) == fields.update(p, (g, xs[i])));
        }
        assert(prev.update(i, SpecValue::Object(fields.update(p, (g, xs[i])))) =~= target);
    }
}

/// The remainder after the cleaned parent key inside a recorded path
/// that starts with slash, parent key.
proof fn lemma_rel_after_under(ck: Seq<char>, tail: Seq<char>)
    requires
        ck.len() > 0,
        ck[0] != '/',
    ensures
        crate::convert::spec_rel_after(seq!['/'] + ck + tail, ck) == Some(tail),
{
    let path = seq!['/'] + ck + tail;
    assert(matches_at(path, ck, 1)) by {
        assert(path.subrange(1, 1 + ck.len() as int) =~= ck);
    }
    assert(!matches_at(path, ck, 0)) by {
        if matches_at(path, ck, 0) {
            assert(path.subrange(0, ck.len() as int)[0] == path[0]);
        }
    }
    crate::strutil::lemma_find_from_step(path, ck, 0, 1);
    assert(find_from(path, ck, 1) == Some(1int));
    assert(path.subrange(1 + ck.len() as int, path.len() as int) =~= tail);
}

/// Splitting the renamed object at the root into copies, one recorded
/// spread array beneath it.
proof fn lemma_split_one(
    ck: Seq<char>,
    g: Seq<char>,
    mprime: Seq<(Seq<char>, SpecValue)>,
    xs: Seq<SpecValue>,
    p: int,
    vbase: Seq<Seq<char>>,
)
    requires
        no_slash(ck),
        ck.len() > 0,
        no_slash(g),
        g.len() > 0,
        obj_find(mprime, g) == Some(p),
        mprime[p].1 == SpecValue::Array(xs),
        xs.len() <= usize::MAX,
    ensures
        ({
            let root = SpecValue::Object(seq![(ck, SpecValue::Object(mprime))]);
            let pp = seq!['/'] + ck;
            let spath = seq!['/'] + ck + seq!['/'] + g;
            let copies = Seq::new(
                xs.len(),
                |i: int| SpecValue::Object(mprime.update(p, (g, xs[i]))),
            );
            crate::convert::spec_split(root, xs.len() as int, vbase + seq![pp, spath], pp, ck)
                == Result::<(SpecValue, Seq<Seq<char>>), SpecError>::Ok(
                (SpecValue::Object(seq![(ck, SpecValue::Array(copies))]), vbase),
            )
        }),
{
    let root = SpecValue::Object(seq![(ck, SpecValue::Object(mprime))]);
    let rootf = seq![(ck, SpecValue::Object(mprime))];
    let pp = seq!['/'] + ck;
    let spath = seq!['/'] + ck + seq!['/'] + g;
    let n = xs.len() as int;
    let vis = vbase + seq![pp, spath];
    assert(vis.len() > 0);
    lemma_pointer_one(rootf, ck, SpecValue::Null);
    assert(obj_find_from(rootf, ck, 0) == Some(0int));
    assert(spec_pointer(root, pp) == Some(SpecValue::Object(mprime)));
    let proto = SpecValue::Object(mprime);
    let copies0 = Seq::new(n as nat, |i: int| proto);
    crate::objops::lemma_obj_find_found(mprime, g, 0);
    assert(mprime[p].0 == g);
    assert(obj_get(mprime, g) == Some(SpecValue::Array(xs)));
    assert(vis.last() == spath);
    assert(vis.drop_last() =~= vbase + seq![pp]);
    assert(spath != pp) by {
        assert(spath.len() > pp.len());
    }
    assert(ck[0] != '/');
    lemma_rel_after_under(ck, seq!['/'] + g);
    assert(seq!['/'] + ck + (seq!['/'] + g) =~= spath);
    assert(crate::convert::spec_rel_after(spath, ck) == Some(seq!['/'] + g));
    assert forall|i: int| 0 <= i < xs.len() implies spec_pointer(
        root,
        spec_format_key(spath, crate::strutil::dec_of(i as nat)),
    ) == Some(xs[i]) by {
        lemma_read_spread_elem(ck, g, mprime, xs, i);
    }
    assert(forall|i: int|
        0 <= i < copies0.len() ==> (#[trigger] copies0[i]) is Object && obj_find(
            copies0[i]->Object_0,
            g,
        ) == Some(p));
    lemma_fill_general(root, spath, g, xs, copies0, p, n);
    let copies = Seq::new(xs.len(), |i: int| SpecValue::Object(mprime.update(p, (g, xs[i]))));
    assert(Seq::new(
        copies0.len(),
        |i: int|
            if 0 <= i < n {
                SpecValue::Object(copies0[i]->Object_0.update(p, (g, xs[i])))
            } else {
                copies0[i]
            },
    ) =~= copies);
    let vis1 = vbase + seq![pp];
    assert(vis1.len() > 0);
    assert(vis1.last() == pp);
    assert(vis1.drop_last() =~= vbase);
    lemma_pointer_one(rootf, ck, SpecValue::Array(copies));
    assert(rootf.update(0, (ck, SpecValue::Array(copies))) =~= seq![
        (ck, SpecValue::Array(copies)),
    ]);
    assert(crate::convert::spec_split_loop(root, n, vis1, pp, ck, copies) == Result::<
        (SpecValue, Seq<Seq<char>>),
        SpecError,
    >::Ok((SpecValue::Object(seq![(ck, SpecValue::Array(copies))]), vbase)));
}

/// Split correctness: an array-convertible object wrapping one spread
/// array of length `N`, beside any plain (non-object, undecorated)
/// fields, becomes an `N`-element array; element `i` holds the `i`-th
/// element of the spread array under the cleaned key, in place, and
/// every other field unchanged, identical across elements. The scratch
/// stacks end as they began.
pub proof fn lemma_split_correctness(
    key: Seq<char>,
    g: Seq<char>,
    xs: Seq<SpecValue>,
    ipre: Seq<(Seq<char>, SpecValue)>,
    ipost: Seq<(Seq<char>, SpecValue)>,
    st: SpecWalkState,
)
    requires
        spec_is_conv(key),
        !spec_is_spread(key),
        no_slash(key),
        spec_clean_key(key).len() > 0,
        no_slash(g),
        g.len() > 0,
        xs.len() <= usize::MAX,
        forall|i: int| 0 <= i < ipre.len() ==> inert_field((#[trigger] ipre[i]).0, ipre[i].1),
        forall|i: int| 0 <= i < ipost.len() ==> inert_field((#[trigger] ipost[i]).0, ipost[i].1),
        forall|i: int| 0 <= i < ipre.len() ==> (#[trigger] ipre[i]).0 != sp_key(g) && ipre[i].0
            != g,
        forall|i: int| 0 <= i < ipost.len() ==> (#[trigger] ipost[i]).0 != g,
        st.output == SpecValue::Object(
            seq![(key, SpecValue::Object(ipre + seq![(sp_key(g), SpecValue::Array(xs))] + ipost))],
        ),
    ensures
        ({
            let m = ipre + seq![(sp_key(g), SpecValue::Array(xs))] + ipost;
            let p = ipre.len() as int;
            let ck = spec_clean_key(key);
            let copies = Seq::new(
                xs.len(),
                |i: int| SpecValue::Object(m.update(p, (g, xs[i]))),
            );
            spec_walk(SpecValue::Object(m), st, Seq::empty(), key) == Result::<
                SpecWalkState,
                SpecError,
            >::Ok(
                SpecWalkState {
                    output: SpecValue::Object(seq![(ck, SpecValue::Array(copies))]),
                    visited: st.visited,
                    lens: st.lens,
                },
            )
        }),
{
    let m = ipre + seq![(sp_key(g), SpecValue::Array(xs))] + ipost;
    let p = ipre.len() as int;
    let ck = spec_clean_key(key);
    assert(ck == key.subrange(1, key.len() - 1));
    assert(no_slash(ck)) by {
        assert forall|j: int| 0 <= j < ck.len() implies ck[j] != '/' by {
            assert(ck[j] == key[j + 1]);
        }
    }
    assert(ck != key) by {
        assert(ck.len() < key.len());
    }
    assert(ck[0] != '/');
    assert(m[p] == (sp_key(g), SpecValue::Array(xs)));
    assert(forall|j: int| 0 <= j < p ==> m[j] == ipre[j]);
    assert(forall|j: int| p < j < m.len() ==> m[j] == ipost[j - p - 1]);
    assert(sp_key(g) != g) by {
        assert(sp_key(g).len() == g.len() + 3);
    }
    // the spread key is found at p, its cleaned form nowhere
    assert forall|j: int| 0 <= j < p implies m[j].0 != sp_key(g) by {
        assert(m[j] == ipre[j]);
    }
    crate::objops::lemma_obj_find_step(m, sp_key(g), 0, p);
    assert(obj_find(m, sp_key(g)) == Some(p));
    assert(obj_find(m, g) is None) by {
        crate::objops::lemma_obj_find_found(m, g, 0);
        match obj_find_from(m, g, 0) {
            Option::Some(j) => {
                assert(m[j].0 == g);
                if j < p {
                    assert(m[j] == ipre[j]);
                } else if j == p {
                } else {
                    assert(m[j] == ipost[j - p - 1]);
                }
                assert(false);
            },
            Option::None => {},
        }
    }
    // entering: the root key is renamed in place
    lemma_rename_root(key, ck, SpecValue::Object(m));
    assert(spec_clean_path(Seq::empty()) == Seq::<char>::empty());
    let vpath = spec_format_key(Seq::empty(), ck);
    assert(vpath == seq!['/'] + ck);
    let st1 = SpecWalkState {
        output: SpecValue::Object(seq![(ck, SpecValue::Object(m))]),
        visited: st.visited.push(vpath),
        lens: st.lens,
    };
    let xp2 = spec_format_key(Seq::empty(), key);
    assert(xp2 == seq!['/'] + key);
    // the fields walk: inert prefix, the spread, inert suffix
    let mid = seq![(sp_key(g), SpecValue::Array(xs))];
    lemma_walk_fields_concat(ipre, mid + ipost, st1, xp2);
    assert(ipre + (mid + ipost) =~= m);
    lemma_walk_fields_inert(ipre, st1, xp2);
    lemma_walk_fields_concat(mid, ipost, st1, xp2);
    assert(mid.first() == (sp_key(g), SpecValue::Array(xs)));
    lemma_walk_spread(xs, st1, key, ck, m, g, p);
    let mprime = m.update(p, (g, SpecValue::Array(xs)));
    let spath = seq!['/'] + ck + seq!['/'] + g;
    let st2 = SpecWalkState {
        output: SpecValue::Object(seq![(ck, SpecValue::Object(mprime))]),
        visited: st1.visited.push(spath),
        lens: st1.lens.push(xs.len() as int),
    };
    assert(spec_walk(mid.first().1, st1, xp2, mid.first().0) == Result::<
        SpecWalkState,
        SpecError,
    >::Ok(st2));
    assert(mid.drop_first() =~= Seq::<(Seq<char>, SpecValue)>::empty());
    assert(spec_walk_fields(Seq::<(Seq<char>, SpecValue)>::empty(), st2, xp2) == Result::<
        SpecWalkState,
        SpecError,
    >::Ok(st2));
    assert(spec_walk_fields(mid, st1, xp2) == Result::<SpecWalkState, SpecError>::Ok(st2));
    lemma_walk_fields_inert(ipost, st2, xp2);
    assert(spec_walk_fields(mid + ipost, st1, xp2) == Result::<SpecWalkState, SpecError>::Ok(st2));
    assert(spec_walk_fields(m, st1, xp2) == Result::<SpecWalkState, SpecError>::Ok(st2));
    // leaving: one recorded length is consumed and the object splits
    assert(st2.lens.len() > 0);
    assert(st2.lens.last() == xs.len() as int);
    lemma_clean_path_one(key);
    assert(spec_clean_path(spec_format_key(Seq::empty(), key)) == seq!['/'] + ck);
    assert(obj_find(mprime, g) == Some(p)) by {
        assert forall|j: int| 0 <= j < p implies mprime[j].0 != g by {
            assert(mprime[j] == ipre[j]);
        }
        crate::objops::lemma_obj_find_step(mprime, g, 0, p);
        assert(mprime[p].0 == g);
    }
    lemma_split_one(ck, g, mprime, xs, p, st.visited);
    assert(st.visited.push(vpath).push(spath) =~= st.visited + seq![seq!['/'] + ck, spath]);
    let copies0 = Seq::new(
        xs.len(),
        |i: int| SpecValue::Object(mprime.update(p, (g, xs[i]))),
    );
    let copies = Seq::new(xs.len(), |i: int| SpecValue::Object(m.update(p, (g, xs[i]))));
    assert(copies0 =~= copies) by {
        assert forall|i: int| 0 <= i < xs.len() implies copies0[i] == copies[i] by {
            assert(mprime.update(p, (g, xs[i])) =~= m.update(p, (g, xs[i])));
        }
    }
    assert(st2.lens.drop_last() =~= st.lens);
}

/// Splitting with two recorded spread arrays beneath the same object:
/// both are distributed, the most recently recorded one first.
proof fn lemma_split_two(
    ck: Seq<char>,
    g1: Seq<char>,
    g2: Seq<char>,
    mpp: Seq<(Seq<char>, SpecValue)>,
    xs: Seq<SpecValue>,
    ys: Seq<SpecValue>,
    p1: int,
    p2: int,
    vbase: Seq<Seq<char>>,
)
    requires
        no_slash(ck),
        ck.len() > 0,
        no_slash(g1),
        g1.len() > 0,
        no_slash(g2),
        g2.len() > 0,
        g1 != g2,
        p1 != p2,
        obj_find(mpp, g1) == Some(p1),
        mpp[p1].1 == SpecValue::Array(xs),
        obj_find(mpp, g2) == Some(p2),
        mpp[p2].1 == SpecValue::Array(ys),
        xs.len() == ys.len(),
        xs.len() <= usize::MAX,
    ensures
        ({
            let root = SpecValue::Object(seq![(ck, SpecValue::Object(mpp))]);
            let pp = seq!['/'] + ck;
            let path1 = seq!['/'] + ck + seq!['/'] + g1;
            let path2 = seq!['/'] + ck + seq!['/'] + g2;
            let copies = Seq::new(
                xs.len(),
                |i: int|
                    SpecValue::Object(
                        mpp.update(p2, (g2, ys[i])).update(p1, (g1, xs[i])),
                    ),
            );
            crate::convert::spec_split(
                root,
                xs.len() as int,
                vbase + seq![pp, path1, path2],
                pp,
                ck,
            ) == Result::<(SpecValue, Seq<Seq<char>>), SpecError>::Ok(
                (SpecValue::Object(seq![(ck, SpecValue::Array(copies))]), vbase),
            )
        }),
{
    let root = SpecValue::Object(seq![(ck, SpecValue::Object(mpp))]);
    let rootf = seq![(ck, SpecValue::Object(mpp))];
    let pp = seq!['/'] + ck;
    let path1 = seq!['/'] + ck + seq!['/'] + g1;
    let path2 = seq!['/'] + ck + seq!['/'] + g2;
    let n = xs.len() as int;
    let vis = vbase + seq![pp, path1, path2];
    assert(vis.len() > 0);
    lemma_pointer_one(rootf, ck, SpecValue::Null);
    assert(obj_find_from(rootf, ck, 0) == Some(0int));
    assert(spec_pointer(root, pp) == Some(SpecValue::Object(mpp)));
    let proto = SpecValue::Object(mpp);
    let copies0 = Seq::new(n as nat, |i: int| proto);
    crate::objops::lemma_obj_find_found(mpp, g1, 0);
    crate::objops::lemma_obj_find_found(mpp, g2, 0);
    assert(mpp[p1].0 == g1);
    assert(mpp[p2].0 == g2);
    assert(obj_get(mpp, g1) == Some(SpecValue::Array(xs)));
    assert(obj_get(mpp, g2) == Some(SpecValue::Array(ys)));
    assert(ck[0] != '/');
    // first pop: the later spread
    assert(vis.last() == path2);
    assert(vis.drop_last() =~= vbase + seq![pp, path1]);
    assert(path2 != pp) by {
        assert(path2.len() > pp.len());
    }
    lemma_rel_after_under(ck, seq!['/'] + g2);
    assert(seq!['/'] + ck + (seq!['/'] + g2) =~= path2);
    assert(crate::convert::spec_rel_after(path2, ck) == Some(seq!['/'] + g2));
    assert forall|i: int| 0 <= i < ys.len() implies spec_pointer(
        root,
        spec_format_key(path2, crate::strutil::dec_of(i as nat)),
    ) == Some(ys[i]) by {
        lemma_read_spread_elem(ck, g2, mpp, ys, i);
    }
    lemma_fill_general(root, path2, g2, ys, copies0, p2, n);
    let copies1 = Seq::new(
        xs.len(),
        |i: int| SpecValue::Object(mpp.update(p2, (g2, ys[i]))),
    );
    assert(Seq::new(
        copies0.len(),
        |i: int|
            if 0 <= i < n {
                SpecValue::Object(copies0[i]->Object_0.update(p2, (g2, ys[i])))
            } else {
                copies0[i]
            },
    ) =~= copies1);
    // second pop: the earlier spread
    let vis1 = vbase + seq![pp, path1];
    assert(vis1.last() == path1);
    assert(vis1.drop_last() =~= vbase + seq![pp]);
    assert(path1 != pp) by {
        assert(path1.len() > pp.len());
    }
    lemma_rel_after_under(ck, seq!['/'] + g1);
    assert(seq!['/'] + ck + (seq!['/'] + g1) =~= path1);
    assert(crate::convert::spec_rel_after(path1, ck) == Some(seq!['/'] + g1));
    assert forall|i: int| 0 <= i < xs.len() implies spec_pointer(
        root,
        spec_format_key(path1, crate::strutil::dec_of(i as nat)),
    ) == Some(xs[i]) by {
        lemma_read_spread_elem(ck, g1, mpp, xs, i);
    }
    assert forall|i: int| 0 <= i < copies1.len() implies (#[trigger] copies1[i]) is Object
        && obj_find(copies1[i]->Object_0, g1) == Some(p1) by {
        let f1 = mpp.update(p2, (g2, ys[i]));
        assert forall|j: int| 0 <= j < p1 implies f1[j].0 != g1 by {
            if j == p2 {
                assert(f1[j].0 == g2);
            } else {
                assert(f1[j].0 == mpp[j].0);
            }
        }
        crate::objops::lemma_obj_find_step(f1, g1, 0, p1);
        assert(f1[p1].0 == g1);
    }
    lemma_fill_general(root, path1, g1, xs, copies1, p1, n);
    let copies2 = Seq::new(
        xs.len(),
        |i: int| SpecValue::Object(mpp.update(p2, (g2, ys[i])).update(p1, (g1, xs[i]))),
    );
    assert(Seq::new(
        copies1.len(),
        |i: int|
            if 0 <= i < n {
                SpecValue::Object(copies1[i]->Object_0.update(p1, (g1, xs[i])))
            } else {
                copies1[i]
            },
    ) =~= copies2);
    // last pop: the parent itself
    let vis2 = vbase + seq![pp];
    assert(vis2.len() > 0);
    assert(vis2.last() == pp);
    assert(vis2.drop_last() =~= vbase);
    lemma_pointer_one(rootf, ck, SpecValue::Array(copies2));
    assert(rootf.update(0, (ck, SpecValue::Array(copies2))) =~= seq![
        (ck, SpecValue::Array(copies2)),
    ]);
    assert(crate::convert::spec_split_loop(root, n, vis2, pp, ck, copies2) == Result::<
        (SpecValue, Seq<Seq<char>>),
        SpecError,
    >::Ok((SpecValue::Object(seq![(ck, SpecValue::Array(copies2))]), vbase)));
    assert(crate::convert::spec_split_loop(root, n, vis1, pp, ck, copies1) == Result::<
        (SpecValue, Seq<Seq<char>>),
        SpecError,
    >::Ok((SpecValue::Object(seq![(ck, SpecValue::Array(copies2))]), vbase)));
    assert(crate::convert::spec_split_loop(root, n, vis, pp, ck, copies0) == Result::<
        (SpecValue, Seq<Seq<char>>),
        SpecError,
    >::Ok((SpecValue::Object(seq![(ck, SpecValue::Array(copies2))]), vbase)));
}

/// Multi-spread agreement: two co-located spread arrays of equal length
/// `N` under the same array-convertible object yield `N` elements, each
/// pairing the `i`-th element of both arrays under the cleaned keys, in
/// place. Only the most recently recorded length is consumed, so one
/// recorded length remains on the stack, as the engine leaves it.
pub proof fn lemma_multi_spread_agreement(
    key: Seq<char>,
    g1: Seq<char>,
    g2: Seq<char>,
    xs: Seq<SpecValue>,
    ys: Seq<SpecValue>,
    st: SpecWalkState,
)
    requires
        spec_is_conv(key),
        !spec_is_spread(key),
        no_slash(key),
        spec_clean_key(key).len() > 0,
        no_slash(g1),
        g1.len() > 0,
        no_slash(g2),
        g2.len() > 0,
        g1 != g2,
        g1 != sp_key(g2),
        g2 != sp_key(g1),
        xs.len() == ys.len(),
        xs.len() <= usize::MAX,
        st.output == SpecValue::Object(
            seq![
                (
                    key,
                    SpecValue::Object(
                        seq![
                            (sp_key(g1), SpecValue::Array(xs)),
                            (sp_key(g2), SpecValue::Array(ys)),
                        ],
                    ),
                ),
            ],
        ),
    ensures
        ({
            let ck = spec_clean_key(key);
            let m = seq![
                (sp_key(g1), SpecValue::Array(xs)),
                (sp_key(g2), SpecValue::Array(ys)),
            ];
            let copies = Seq::new(
                xs.len(),
                |i: int| SpecValue::Object(seq![(g1, xs[i]), (g2, ys[i])]),
            );
            spec_walk(SpecValue::Object(m), st, Seq::empty(), key) == Result::<
                SpecWalkState,
                SpecError,
            >::Ok(
                SpecWalkState {
                    output: SpecValue::Object(seq![(ck, SpecValue::Array(copies))]),
                    visited: st.visited,
                    lens: st.lens.push(xs.len() as int),
                },
            )
        }),
{
    let ck = spec_clean_key(key);
    let m = seq![(sp_key(g1), SpecValue::Array(xs)), (sp_key(g2), SpecValue::Array(ys))];
    assert(ck == key.subrange(1, key.len() - 1));
    assert(no_slash(ck)) by {
        assert forall|j: int| 0 <= j < ck.len() implies ck[j] != '/' by {
            assert(ck[j] == key[j + 1]);
        }
    }
    assert(ck != key) by {
        assert(ck.len() < key.len());
    }
    assert(ck[0] != '/');
    assert(sp_key(g1) != g1) by {
        assert(sp_key(g1).len() == g1.len() + 3);
    }
    assert(sp_key(g2) != g2) by {
        assert(sp_key(g2).len() == g2.len() + 3);
    }
    assert(sp_key(g1) != sp_key(g2)) by {
        if sp_key(g1) == sp_key(g2) {
            assert(sp_key(g1).subrange(3, sp_key(g1).len() as int) =~= g1);
            assert(sp_key(g2).subrange(3, sp_key(g2).len() as int) =~= g2);
        }
    }
    // entering: the root key is renamed in place
    lemma_rename_root(key, ck, SpecValue::Object(m));
    assert(spec_clean_path(Seq::empty()) == Seq::<char>::empty());
    let vpath = spec_format_key(Seq::empty(), ck);
    assert(vpath == seq!['/'] + ck);
    let st1 = SpecWalkState {
        output: SpecValue::Object(seq![(ck, SpecValue::Object(m))]),
        visited: st.visited.push(vpath),
        lens: st.lens,
    };
    let xp2 = spec_format_key(Seq::empty(), key);
    assert(xp2 == seq!['/'] + key);
    // first spread field
    assert(obj_find_from(m, sp_key(g1), 0) == Some(0int));
    assert(obj_find(m, g1) is None) by {
        assert(m[0].0 != g1 && m[1].0 != g1);
        assert(obj_find_from(m, g1, 2) == None::<int>);
        assert(obj_find_from(m, g1, 1) == None::<int>);
        assert(obj_find_from(m, g1, 0) == None::<int>);
    }
    lemma_walk_spread(xs, st1, key, ck, m, g1, 0);
    let cur1 = m.update(0, (g1, SpecValue::Array(xs)));
    let path1 = seq!['/'] + ck + seq!['/'] + g1;
    let st2 = SpecWalkState {
        output: SpecValue::Object(seq![(ck, SpecValue::Object(cur1))]),
        visited: st1.visited.push(path1),
        lens: st1.lens.push(xs.len() as int),
    };
    // second spread field
    assert(cur1[0].0 == g1);
    assert(cur1[1].0 == sp_key(g2));
    assert(obj_find_from(cur1, sp_key(g2), 1) == Some(1int));
    assert(obj_find_from(cur1, sp_key(g2), 0) == Some(1int));
    assert(obj_find(cur1, g2) is None) by {
        assert(cur1[0].0 != g2 && cur1[1].0 != g2);
        assert(obj_find_from(cur1, g2, 2) == None::<int>);
        assert(obj_find_from(cur1, g2, 1) == None::<int>);
        assert(obj_find_from(cur1, g2, 0) == None::<int>);
    }
    lemma_walk_spread(ys, st2, key, ck, cur1, g2, 1);
    let cur2 = cur1.update(1, (g2, SpecValue::Array(ys)));
    let path2 = seq!['/'] + ck + seq!['/'] + g2;
    let st3 = SpecWalkState {
        output: SpecValue::Object(seq![(ck, SpecValue::Object(cur2))]),
        visited: st2.visited.push(path2),
        lens: st2.lens.push(ys.len() as int),
    };
    // the fields walk is those two steps
    assert(m.first() == (sp_key(g1), SpecValue::Array(xs)));
    assert(m.drop_first() =~= seq![(sp_key(g2), SpecValue::Array(ys))]);
    let mtail = seq![(sp_key(g2), SpecValue::Array(ys))];
    assert(mtail.first() == (sp_key(g2), SpecValue::Array(ys)));
    assert(mtail.drop_first() =~= Seq::<(Seq<char>, SpecValue)>::empty());
    assert(spec_walk_fields(Seq::<(Seq<char>, SpecValue)>::empty(), st3, xp2) == Result::<
        SpecWalkState,
        SpecError,
    >::Ok(st3));
    assert(spec_walk_fields(mtail, st2, xp2) == Result::<SpecWalkState, SpecError>::Ok(st3));
    assert(spec_walk_fields(m, st1, xp2) == Result::<SpecWalkState, SpecError>::Ok(st3));
    // leaving: the most recent length is consumed and the object splits
    assert(st3.lens.len() > 0);
    assert(st3.lens.last() == ys.len() as int);
    lemma_clean_path_one(key);
    assert(spec_clean_path(spec_format_key(Seq::empty(), key)) == seq!['/'] + ck);
    assert(obj_find_from(cur2, g1, 0) == Some(0int));
    assert(cur2[0].0 == g1 && cur2[1].0 == g2);
    assert(obj_find_from(cur2, g2, 1) == Some(1int));
    assert(obj_find_from(cur2, g2, 0) == Some(1int));
    assert(cur2[0].1 == SpecValue::Array(xs));
    assert(cur2[1].1 == SpecValue::Array(ys));
    lemma_split_two(ck, g1, g2, cur2, xs, ys, 0, 1, st.visited);
    assert(st.visited.push(vpath).push(path1).push(path2) =~= st.visited + seq![
        seq!['/'] + ck,
        path1,
        path2,
    ]);
    let copies2 = Seq::new(
        xs.len(),
        |i: int| SpecValue::Object(cur2.update(1, (g2, ys[i])).update(0, (g1, xs[i]))),
    );
    let copies = Seq::new(
        xs.len(),
        |i: int| SpecValue::Object(seq![(g1, xs[i]), (g2, ys[i])]),
    );
    assert(copies2 =~= copies) by {
        assert forall|i: int| 0 <= i < xs.len() implies copies2[i] == copies[i] by {
            assert(cur2.update(1, (g2, ys[i])).update(0, (g1, xs[i])) =~= seq![
                (g1, xs[i]),
                (g2, ys[i]),
            ]);
        }
    }
    assert(st3.lens.drop_last() =~= st.lens.push(xs.len() as int));
}

/// Error surfacing at a template leaf: a leaf holding the absolute
/// path of a single field the input object lacks fails with the
/// field-not-found error naming that field and the input.
pub proof fn lemma_leaf_missing_field(m: Seq<(Seq<char>, SpecValue)>, f: Seq<char>)
    requires
        no_slash(f),
        f.len() > 0,
        obj_get(m, f) is None,
    ensures
        spec_substitute(SpecValue::Object(m), SpecValue::Text(seq!['/'] + f)) == Result::<
            SpecValue,
            SpecError,
        >::Err(SpecError::FieldNotFound(f, SpecValue::Object(m))),
{
    let leaf = seq!['/'] + f;
    assert(!spec_is_literal(leaf)) by {
        assert(leaf[0] == '/');
    }
    lemma_split_sep(Seq::empty(), f);
    assert(Seq::empty() + seq!['/'] + f =~= leaf);
    lemma_no_sep_split(f);
    assert(split_char(leaf, '/') == seq![Seq::<char>::empty()] + seq![f]);
    let segs = split_char(leaf, '/').drop_first();
    assert(segs =~= seq![f]);
    assert(segs.first() == f);
    lemma_missing_field_error(m, segs);
}

} // verus!
