//! Operations on the field list of an object value.
//!
//! An object keeps its fields in insertion order. Lookup finds the first
//! (and, on well-formed documents, only) entry with a key; insertion
//! replaces the value in place when the key exists and appends
//! otherwise; removal swaps the last entry into the freed slot, which is
//! what renaming a freshly appended key relies on to keep positions.

use vstd::prelude::*;
use crate::strutil::str_eq;
use crate::value::{fields_view, SpecValue, Value};

verus! {

/// The first index at or after `from` whose key is `k`.
pub open spec fn obj_find_from(
    m: Seq<(Seq<char>, SpecValue)>,
    k: Seq<char>,
    from: int,
) -> Option<int>
    decreases m.len() - from,
{
    if from < 0 || from >= m.len() {
        None
    } else if m[from].0 == k {
        Some(from)
    } else {
        obj_find_from(m, k, from + 1)
    }
}

/// The first index whose key is `k`.
pub open spec fn obj_find(m: Seq<(Seq<char>, SpecValue)>, k: Seq<char>) -> Option<int> {
    obj_find_from(m, k, 0)
}

/// The value stored under `k`, if any.
pub open spec fn obj_get(m: Seq<(Seq<char>, SpecValue)>, k: Seq<char>) -> Option<SpecValue> {
    match obj_find(m, k) {
        Option::None => None,
        Option::Some(i) => Some(m[i].1),
    }
}

/// Insertion: replaces the value in place when `k` exists, else appends.
pub open spec fn obj_insert(
    m: Seq<(Seq<char>, SpecValue)>,
    k: Seq<char>,
    v: SpecValue,
) -> Seq<(Seq<char>, SpecValue)> {
    match obj_find(m, k) {
        Option::None => m.push((k, v)),
        Option::Some(i) => m.update(i, (k, v)),
    }
}

/// Removal: the last entry is swapped into the freed slot.
pub open spec fn obj_swap_remove(
    m: Seq<(Seq<char>, SpecValue)>,
    k: Seq<char>,
) -> Seq<(Seq<char>, SpecValue)>
    recommends
        obj_find(m, k) is Some,
{
    match obj_find(m, k) {
        Option::None => m,
        Option::Some(i) => m.update(i, m.last()).drop_last(),
    }
}

/// `obj_find_from` skips exactly the entries with another key.
pub proof fn lemma_obj_find_step(
    m: Seq<(Seq<char>, SpecValue)>,
    k: Seq<char>,
    from: int,
    upto: int,
)
    requires
        0 <= from <= upto,
        forall|j: int| from <= j < upto ==> m[j].0 != k,
    ensures
        obj_find_from(m, k, from) == obj_find_from(m, k, upto),
    decreases upto - from,
{
    if from < upto {
        lemma_obj_find_step(m, k, from + 1, upto);
    }
}

/// A found index holds `k`, earlier entries do not; `None` means no
/// entry holds `k`.
pub proof fn lemma_obj_find_found(m: Seq<(Seq<char>, SpecValue)>, k: Seq<char>, from: int)
    requires
        0 <= from,
    ensures
        obj_find_from(m, k, from) matches Some(i) ==> from <= i < m.len() && m[i].0 == k
            && forall|j: int| from <= j < i ==> m[j].0 != k,
        obj_find_from(m, k, from) is None ==> forall|j: int| from <= j < m.len() ==> m[j].0 != k,
    decreases m.len() - from,
{
    if 0 <= from < m.len() && m[from].0 != k {
        lemma_obj_find_found(m, k, from + 1);
    }
}

/// The first index of the key `k` among the fields, scanning forward.
pub fn obj_index_of(m: &Vec<(String, Value)>, k: &str) -> (r: Option<usize>)
    ensures
        ({
            let f = obj_find(fields_view(m@), k@);
            match r {
                Option::Some(i) => f == Some(i as int) && i < m@.len(),
                Option::None => f is None,
            }
        }),
{
    let n = m.len();
    let mut i: usize = 0;
    #[verifier::loop_isolation(false)]
    while i < n
        invariant
            0 <= i <= n,
            forall|j: int| 0 <= j < i ==> fields_view(m@)[j].0 != k@,
        decreases n - i,
    {
        if str_eq(m[i].0.as_str(), k) {
            proof {
                lemma_obj_find_step(fields_view(m@), k@, 0, i as int);
            }
            return Some(i);
        }
        i = i + 1;
    }
    proof {
        lemma_obj_find_step(fields_view(m@), k@, 0, i as int);
    }
    None
}

/// A reference to the value stored under `k`, if any.
pub fn obj_lookup<'a>(m: &'a Vec<(String, Value)>, k: &str) -> (r: Option<&'a Value>)
    ensures
        ({
            let g = obj_get(fields_view(m@), k@);
            match r {
                Option::Some(v) => g == Some(v@),
                Option::None => g is None,
            }
        }),
{
    match obj_index_of(m, k) {
        Option::Some(i) => Some(&m[i].1),
        Option::None => None,
    }
}

/// Inserts `(k, v)`, replacing in place when the key exists.
pub fn obj_insert_exec(m: &mut Vec<(String, Value)>, k: &str, v: Value)
    ensures
        fields_view(final(m)@) =~= obj_insert(fields_view(old(m)@), k@, v@),
{
    let found = obj_index_of(m, k);
    match found {
        Option::Some(i) => {
            let _ = m.remove(i);
            m.insert(i, (String::from_str(k), v));
            proof {
                assert(fields_view(m@) =~= obj_insert(fields_view(old(m)@), k@, v@));
            }
        },
        Option::None => {
            m.push((String::from_str(k), v));
            proof {
                assert(fields_view(m@) =~= obj_insert(fields_view(old(m)@), k@, v@));
            }
        },
    }
}

/// Removes the entry with key `k`, swapping the last entry into its
/// place; leaves the fields alone when the key is absent.
pub fn obj_swap_remove_exec(m: &mut Vec<(String, Value)>, k: &str) -> (r: bool)
    ensures
        fields_view(final(m)@) =~= obj_swap_remove(fields_view(old(m)@), k@),
        r == (obj_find(fields_view(old(m)@), k@) is Some),
{
    let found = obj_index_of(m, k);
    match found {
        Option::Some(i) => {
            let _ = m.swap_remove(i);
            proof {
                assert(fields_view(m@) =~= obj_swap_remove(fields_view(old(m)@), k@));
            }
            true
        },
        Option::None => false,
    }
}

} // verus!
