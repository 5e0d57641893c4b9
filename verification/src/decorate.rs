//! The decoration parser.
//!
//! Template keys may carry two markers: an array-convertible key is
//! wrapped in square brackets (`[order]`), and a spread key contains
//! three dots (`...ids`). Cleaning strips one layer of decoration and
//! yields the canonical key used in the final output.

use vstd::prelude::*;
use crate::errors::TransformError;
use crate::strutil::{contains_seq, contains_str, matches_at, split_char, split_str, views_of};

verus! {

/// The key is wrapped in square brackets.
pub open spec fn spec_is_conv(k: Seq<char>) -> bool {
    k.len() > 0 && k[0] == '[' && k[k.len() - 1] == ']'
}

/// The three-dot spread marker.
pub open spec fn spread_marker() -> Seq<char> {
    seq!['.', '.', '.']
}

/// The key carries the spread marker somewhere.
pub open spec fn spec_is_spread(k: Seq<char>) -> bool {
    contains_seq(k, spread_marker())
}

/// One cleaning step: a spread key loses a leading marker; otherwise an
/// array-convertible key loses its brackets; any other key is unchanged.
/// A spread marker that is not a prefix is left where it stands.
pub open spec fn spec_clean_key(k: Seq<char>) -> Seq<char> {
    if spec_is_spread(k) {
        if matches_at(k, spread_marker(), 0) {
            k.subrange(3, k.len() as int)
        } else {
            k
        }
    } else if spec_is_conv(k) {
        k.subrange(1, k.len() - 1)
    } else {
        k
    }
}

/// A cleaned path: every `/`-separated segment cleaned and rejoined,
/// always with a leading slash.
pub open spec fn join_cleaned(toks: Seq<Seq<char>>) -> Seq<char>
    decreases toks.len(),
{
    if toks.len() == 0 {
        Seq::empty()
    } else {
        join_cleaned(toks.drop_last()) + seq!['/'] + spec_clean_key(toks.last())
    }
}

/// What `clean_path` returns: the empty path stays empty; otherwise the
/// segments (a leading empty one dropped) are cleaned and rejoined.
pub open spec fn spec_clean_path(p: Seq<char>) -> Seq<char> {
    if p.len() == 0 {
        Seq::empty()
    } else {
        let toks = split_char(p, '/');
        if toks[0].len() == 0 {
            join_cleaned(toks.drop_first())
        } else {
            join_cleaned(toks)
        }
    }
}

/// Joining a path and a key: an empty key leaves the path alone; an
/// empty path yields `/key`; otherwise `path/key`.
pub open spec fn spec_format_key(x: Seq<char>, k: Seq<char>) -> Seq<char> {
    if k.len() == 0 {
        x
    } else if x.len() == 0 {
        seq!['/'] + k
    } else {
        x + seq!['/'] + k
    }
}

/// True iff the key is wrapped as `[name]`.
pub fn is_obj_to_be_converted_to_array(obj_name: &str) -> (r: bool)
    ensures
        r == spec_is_conv(obj_name@),
{
    let n = obj_name.unicode_len();
    n > 0 && obj_name.get_char(0) == '[' && obj_name.get_char(n - 1) == ']'
}

/// True iff the key contains the spread marker `...`.
pub fn is_to_be_spread_array(array_name: &str) -> (r: bool)
    ensures
        r == spec_is_spread(array_name@),
{
    proof {
        reveal_strlit("...");
        assert("..."@ =~= spread_marker());
    }
    contains_str(array_name, "...")
}

/// Strips one layer of decoration from a template key.
///
/// The bracket form is recognised only when balanced, so no input can
/// actually produce the unbalanced-bracket error: the result is `Ok` for
/// every key.
pub fn clean_key<'a>(key: &'a str) -> (r: Result<&'a str, TransformError>)
    ensures
        r matches Ok(s) && s@ == spec_clean_key(key@),
{
    let n = key.unicode_len();
    if is_to_be_spread_array(key) {
        if n >= 3 && key.get_char(0) == '.' && key.get_char(1) == '.' && key.get_char(2) == '.' {
            proof {
                assert(key@.subrange(0, 3) =~= spread_marker());
            }
            Ok(key.substring_char(3, n))
        } else {
            proof {
                if matches_at(key@, spread_marker(), 0) {
                    assert(key@.subrange(0, 3) =~= spread_marker());
                    assert(key@[0] == key@.subrange(0, 3)[0]);
                    assert(key@[1] == key@.subrange(0, 3)[1]);
                    assert(key@[2] == key@.subrange(0, 3)[2]);
                }
            }
            Ok(key)
        }
    } else if is_obj_to_be_converted_to_array(key) {
        Ok(key.substring_char(1, n - 1))
    } else {
        Ok(key)
    }
}

/// Cleans every segment of a `/`-delimited path and rejoins them,
/// adding a leading slash where the input had none. Never fails.
pub fn clean_path(path: &str) -> (r: Result<String, TransformError>)
    ensures
        r matches Ok(s) && s@ == spec_clean_path(path@),
{
    if path.unicode_len() == 0 {
        return Ok(String::new());
    }
    let toks = split_str(path, '/');
    proof {
        crate::strutil::lemma_split_char_len(path@, '/');
        assert(views_of(toks@).len() == split_char(path@, '/').len());
    }
    let start: usize = if toks[0].as_str().unicode_len() == 0 {
        1
    } else {
        0
    };
    let ghost kept: Seq<Seq<char>> = if start == 1 {
        split_char(path@, '/').drop_first()
    } else {
        split_char(path@, '/')
    };
    let mut out = String::new();
    let mut i: usize = start;
    #[verifier::loop_isolation(false)]
    while i < toks.len()
        invariant
            start <= i <= toks.len(),
            out@ == join_cleaned(kept.subrange(0, i - start)),
        decreases toks.len() - i,
    {
        proof {
            reveal_strlit("/");
        }
        out.append("/");
        let ck = match clean_key(toks[i].as_str()) {
            Ok(s) => s,
            Err(e) => {
                return Err(e);
            },
        };
        out.append(ck);
        proof {
            let pre = kept.subrange(0, i - start);
            let post = kept.subrange(0, i + 1 - start);
            assert(post.drop_last() =~= pre);
            assert(post.last() == views_of(toks@)[i as int]);
            assert(out@ == join_cleaned(post));
        }
        i = i + 1;
    }
    proof {
        assert(kept.subrange(0, i - start) =~= kept);
    }
    Ok(out)
}

/// Joins a path and a key with a slash; see [`spec_format_key`].
pub fn format_key(xpath: &str, key: &str) -> (r: String)
    ensures
        r@ == spec_format_key(xpath@, key@),
{
    proof {
        reveal_strlit("/");
    }
    if key.unicode_len() == 0 {
        String::from_str(xpath)
    } else if xpath.unicode_len() == 0 {
        let mut s = String::from_str("/");
        s.append(key);
        proof {
            assert(s@ =~= spec_format_key(xpath@, key@));
        }
        s
    } else {
        let mut s = String::from_str(xpath);
        s.append("/");
        s.append(key);
        proof {
            assert(s@ =~= spec_format_key(xpath@, key@));
        }
        s
    }
}

/// A decoration marker inside a contiguous piece of a key is a marker
/// inside the whole key.
proof fn lemma_spread_in_subrange(s: Seq<char>, a: int, b: int)
    requires
        0 <= a <= b <= s.len(),
        spec_is_spread(s.subrange(a, b)),
    ensures
        spec_is_spread(s),
{
    let sub = s.subrange(a, b);
    let i = choose|i: int| matches_at(sub, spread_marker(), i);
    assert(s.subrange(a + i, a + i + 3) =~= sub.subrange(i, i + 3));
    assert(matches_at(s, spread_marker(), a + i));
}

/// Cleaning a template key is idempotent: one cleaning strips at most
/// one layer of decoration, and cleaning the result again changes
/// nothing. The only exceptions are keys whose decoration hides a
/// second full layer (a second leading spread marker under the first,
/// or a bracket pair directly inside another); those are left out here.
pub proof fn lemma_clean_key_idempotent(k: Seq<char>)
    requires
        matches_at(k, spread_marker(), 0) ==> !matches_at(
            spec_clean_key(k),
            spread_marker(),
            0,
        ) && !(spec_is_conv(spec_clean_key(k)) && !spec_is_spread(spec_clean_key(k))),
        spec_is_conv(k) && !spec_is_spread(k) ==> !spec_is_conv(
            k.subrange(1, k.len() - 1),
        ),
    ensures
        spec_clean_key(spec_clean_key(k)) == spec_clean_key(k),
{
    let c = spec_clean_key(k);
    if spec_is_spread(k) {
        if matches_at(k, spread_marker(), 0) {
            if spec_is_spread(c) {
                assert(!matches_at(c, spread_marker(), 0));
            } else {
                assert(!(spec_is_conv(c) && !spec_is_spread(c)));
            }
        } else {
            assert(c == k);
        }
    } else if spec_is_conv(k) {
        assert(c == k.subrange(1, k.len() - 1));
        if spec_is_spread(c) {
            lemma_spread_in_subrange(k, 1, k.len() - 1);
            assert(false);
        }
        assert(!spec_is_conv(c));
    } else {
        assert(c == k);
    }
}

} // verus!
