//! String helpers shared by the decoration parser, the pointer
//! navigation and the renderers: substring search, splitting on a
//! separator character, and decimal index tokens.

use vstd::prelude::*;

verus! {

/// `pat` occurs in `s` starting at position `i`.
pub open spec fn matches_at(s: Seq<char>, pat: Seq<char>, i: int) -> bool {
    0 <= i && i + pat.len() <= s.len() && s.subrange(i, i + pat.len()) == pat
}

/// `pat` occurs somewhere in `s`.
pub open spec fn contains_seq(s: Seq<char>, pat: Seq<char>) -> bool {
    exists|i: int| matches_at(s, pat, i)
}

/// The first position at or after `from` where `pat` occurs in `s`.
pub open spec fn find_from(s: Seq<char>, pat: Seq<char>, from: int) -> Option<int>
    decreases s.len() - from,
{
    if from < 0 || from + pat.len() > s.len() {
        None
    } else if matches_at(s, pat, from) {
        Some(from)
    } else if from >= s.len() {
        None
    } else {
        find_from(s, pat, from + 1)
    }
}

/// `find_from` skips exactly the positions without a match.
pub proof fn lemma_find_from_step(s: Seq<char>, pat: Seq<char>, from: int, upto: int)
    requires
        0 <= from <= upto,
        forall|j: int| from <= j < upto ==> !matches_at(s, pat, j),
    ensures
        find_from(s, pat, from) == find_from(s, pat, upto),
    decreases upto - from,
{
    if from < upto {
        lemma_find_from_step(s, pat, from + 1, upto);
    }
}

/// A found position is a match, and the first one.
pub proof fn lemma_find_from_found(s: Seq<char>, pat: Seq<char>, from: int)
    requires
        0 <= from,
    ensures
        find_from(s, pat, from) matches Some(i) ==> matches_at(s, pat, i) && from <= i
            && forall|j: int| from <= j < i ==> !matches_at(s, pat, j),
        find_from(s, pat, from) is None ==> forall|j: int| from <= j ==> !matches_at(s, pat, j),
    decreases s.len() - from,
{
    if from < 0 || from + pat.len() > s.len() {
    } else if matches_at(s, pat, from) {
    } else if from >= s.len() {
    } else {
        lemma_find_from_found(s, pat, from + 1);
    }
}

/// `s` split at every occurrence of the character `c`; always at least
/// one (possibly empty) piece.
pub open spec fn split_char(s: Seq<char>, c: char) -> Seq<Seq<char>>
    decreases s.len(),
    via split_char_dec
{
    match find_from(s, seq![c], 0) {
        Option::None => seq![s],
        Option::Some(i) => seq![s.subrange(0, i)] + split_char(
            s.subrange(i + 1, s.len() as int),
            c,
        ),
    }
}

#[via_fn]
proof fn split_char_dec(s: Seq<char>, c: char) {
    lemma_find_from_found(s, seq![c], 0);
}

pub proof fn lemma_split_char_len(s: Seq<char>, c: char)
    ensures
        split_char(s, c).len() >= 1,
    decreases s.len(),
{
    match find_from(s, seq![c], 0) {
        Option::None => {},
        Option::Some(i) => {
            lemma_find_from_found(s, seq![c], 0);
            lemma_split_char_len(s.subrange(i + 1, s.len() as int), c);
        },
    }
}

/// The views of a sequence of owned strings.
pub open spec fn views_of(v: Seq<String>) -> Seq<Seq<char>> {
    Seq::new(v.len(), |i: int| if 0 <= i < v.len() { v[i]@ } else { Seq::empty() })
}

/// First occurrence of the character `c` in `s`, scanning forward.
pub fn find_char(s: &str, c: char) -> (r: Option<usize>)
    ensures
        ({
            let f = find_from(s@, seq![c], 0);
            match r {
                Option::Some(i) => f == Some(i as int),
                Option::None => f is None,
            }
        }),
{
    let n = s.unicode_len();
    let mut i: usize = 0;
    #[verifier::loop_isolation(false)]
    while i < n
        invariant
            0 <= i <= n,
            forall|j: int| 0 <= j < i ==> !matches_at(s@, seq![c], j),
        decreases n - i,
    {
        if s.get_char(i) == c {
            proof {
                assert(s@.subrange(i as int, i + 1) =~= seq![c]);
                assert(matches_at(s@, seq![c], i as int));
                lemma_find_from_step(s@, seq![c], 0, i as int);
            }
            return Some(i);
        }
        proof {
            assert(s@.subrange(i as int, i + 1)[0] == s@[i as int]);
        }
        i = i + 1;
    }
    proof {
        lemma_find_from_step(s@, seq![c], 0, i as int);
    }
    None
}

/// First occurrence of `pat` in `s`, scanning forward.
pub fn find_str(s: &str, pat: &str) -> (r: Option<usize>)
    ensures
        ({
            let f = find_from(s@, pat@, 0);
            match r {
                Option::Some(i) => f == Some(i as int),
                Option::None => f is None,
            }
        }),
{
    let n = s.unicode_len();
    let m = pat.unicode_len();
    if m > n {
        proof {
            lemma_find_from_found(s@, pat@, 0);
        }
        return None;
    }
    let mut i: usize = 0;
    #[verifier::loop_isolation(false)]
    while i <= n - m
        invariant
            0 <= i <= n - m + 1,
            forall|j: int| 0 <= j < i ==> !matches_at(s@, pat@, j),
        decreases n - i,
    {
        let mut k: usize = 0;
        let mut hit = true;
        #[verifier::loop_isolation(false)]
        while k < m
            invariant
                0 <= k <= m,
                i + m <= n,
                hit <==> s@.subrange(i as int, i + k) =~= pat@.subrange(0, k as int),
            decreases m - k,
        {
            let a = s.get_char(i + k);
            let b = pat.get_char(k);
            proof {
                assert(s@.subrange(i as int, i + k + 1) =~= s@.subrange(i as int, i + k).push(
                    s@[i + k],
                ));
                assert(pat@.subrange(0, k + 1) =~= pat@.subrange(0, k as int).push(pat@[k as int]));
            }
            if a != b {
                proof {
                    assert(s@.subrange(i as int, i + k + 1)[k as int] == a);
                    assert(pat@.subrange(0, k + 1)[k as int] == b);
                }
                hit = false;
                k = m;
            } else {
                if !hit {
                    proof {
                        let sa = s@.subrange(i as int, i + k);
                        let pa = pat@.subrange(0, k as int);
                        assert(sa != pa);
                        let d = choose|d: int| 0 <= d < k && sa[d] != pa[d];
                        assert(s@.subrange(i as int, i + k + 1)[d] == sa[d]);
                    }
                }
                k = k + 1;
            }
        }
        if hit {
            proof {
                assert(s@.subrange(i as int, i + m) =~= pat@.subrange(0, m as int));
                assert(pat@.subrange(0, m as int) =~= pat@);
                assert(matches_at(s@, pat@, i as int));
                lemma_find_from_step(s@, pat@, 0, i as int);
            }
            return Some(i);
        } else {
            proof {
                if matches_at(s@, pat@, i as int) {
                    assert(s@.subrange(i as int, i + m) == pat@);
                    assert(pat@.subrange(0, m as int) =~= pat@);
                }
            }
        }
        i = i + 1;
    }
    proof {
        lemma_find_from_step(s@, pat@, 0, i as int);
        lemma_find_from_found(s@, pat@, i as int);
    }
    None
}

/// Whether `pat` occurs in `s`.
pub fn contains_str(s: &str, pat: &str) -> (r: bool)
    ensures
        r == contains_seq(s@, pat@),
{
    let f = find_str(s, pat);
    proof {
        lemma_find_from_found(s@, pat@, 0);
        match find_from(s@, pat@, 0) {
            Option::Some(i) => {
                assert(matches_at(s@, pat@, i));
            },
            Option::None => {},
        }
    }
    f.is_some()
}

/// `s` split at every occurrence of `c`, as owned strings.
pub fn split_str(s: &str, c: char) -> (r: Vec<String>)
    ensures
        views_of(r@) =~= split_char(s@, c),
    decreases s@.len(),
{
    match find_char(s, c) {
        Option::None => {
            let mut out: Vec<String> = Vec::new();
            out.push(String::from_str(s));
            out
        },
        Option::Some(i) => {
            proof {
                lemma_find_from_found(s@, seq![c], 0);
            }
            let n = s.unicode_len();
            let head = s.substring_char(0, i);
            let tail = s.substring_char(i + 1, n);
            let mut rest = split_str(tail, c);
            rest.insert(0, String::from_str(head));
            proof {
                let whole = split_char(s@, c);
                let sub = split_char(s@.subrange(i + 1, s@.len() as int), c);
                assert(whole =~= seq![s@.subrange(0, i as int)] + sub);
                assert forall|j: int| 0 <= j < rest@.len() implies views_of(rest@)[j]
                    == whole[j] by {
                    if j > 0 {
                        assert(views_of(rest@)[j] == (seq![s@.subrange(0, i as int)] + sub)[j]);
                    }
                }
            }
            rest
        },
    }
}

/// Character-for-character equality of two string slices.
pub fn str_eq(a: &str, b: &str) -> (r: bool)
    ensures
        r == (a@ == b@),
{
    let n = a.unicode_len();
    if n != b.unicode_len() {
        proof {
            assert(a@ != b@) by {
                assert(a@.len() != b@.len());
            }
        }
        return false;
    }
    let mut i: usize = 0;
    #[verifier::loop_isolation(false)]
    while i < n
        invariant
            0 <= i <= n,
            forall|j: int| 0 <= j < i ==> a@[j] == b@[j],
        decreases n - i,
    {
        if a.get_char(i) != b.get_char(i) {
            return false;
        }
        i = i + 1;
    }
    proof {
        assert(a@ =~= b@);
    }
    true
}

/// The decimal text of `n`, without sign or padding.
pub open spec fn dec_of(n: nat) -> Seq<char>
    decreases n,
{
    if n < 10 {
        seq![digit_char(n)]
    } else {
        dec_of(n / 10).push(digit_char(n % 10))
    }
}

/// The character for one decimal digit.
pub open spec fn digit_char(d: nat) -> char {
    if d == 0 {
        '0'
    } else if d == 1 {
        '1'
    } else if d == 2 {
        '2'
    } else if d == 3 {
        '3'
    } else if d == 4 {
        '4'
    } else if d == 5 {
        '5'
    } else if d == 6 {
        '6'
    } else if d == 7 {
        '7'
    } else if d == 8 {
        '8'
    } else {
        '9'
    }
}

fn digit_str(d: u8) -> (r: &'static str)
    requires
        d < 10,
    ensures
        r@ =~= seq![digit_char(d as nat)],
{
    proof {
        reveal_strlit("0");
        reveal_strlit("1");
        reveal_strlit("2");
        reveal_strlit("3");
        reveal_strlit("4");
        reveal_strlit("5");
        reveal_strlit("6");
        reveal_strlit("7");
        reveal_strlit("8");
        reveal_strlit("9");
    }
    if d == 0 {
        "0"
    } else if d == 1 {
        "1"
    } else if d == 2 {
        "2"
    } else if d == 3 {
        "3"
    } else if d == 4 {
        "4"
    } else if d == 5 {
        "5"
    } else if d == 6 {
        "6"
    } else if d == 7 {
        "7"
    } else if d == 8 {
        "8"
    } else {
        "9"
    }
}

/// Renders `n` in decimal.
pub fn dec_string(n: usize) -> (r: String)
    ensures
        r@ == dec_of(n as nat),
    decreases n,
{
    if n < 10 {
        let mut s = String::new();
        s.append(digit_str(n as u8));
        proof {
            assert(s@ =~= dec_of(n as nat));
        }
        s
    } else {
        let mut s = dec_string(n / 10);
        s.append(digit_str((n % 10) as u8));
        proof {
            assert(s@ =~= dec_of(n as nat));
        }
        s
    }
}

} // verus!
