//! Character-level utilities shared by the matcher and the asset
//! extractor: conversions between `&str`/`String` and `Vec<char>`, and
//! scanning for the first character position satisfying a condition.
use vstd::prelude::*;
use vstd::string::StrSliceExecFns;

verus! {

/// Collects the characters of a string slice into a vector.
pub fn str_chars(s: &str) -> (r: Vec<char>)
    ensures
        r@ == s@,
{
    let n = s.unicode_len();
    let mut out: Vec<char> = Vec::new();
    let mut i: usize = 0;
    while i < n
        invariant
            i <= n,
            n == s@.len(),
            out@ == s@.subrange(0, i as int),
        decreases n - i,
    {
        out.push(s.get_char(i));
        proof {
            assert(s@.subrange(0, i + 1 as int) =~= s@.subrange(0, i as int).push(s@[i as int]));
        }
        i = i + 1;
    }
    proof {
        assert(s@.subrange(0, n as int) =~= s@);
    }
    out
}

/// Builds an owned string out of a character vector.
/// Relies on `String: FromIterator<char>`: collecting yields a string
/// holding exactly the iterated characters, in order.
#[verifier::external_body]
pub(crate) fn chars_to_string(v: &Vec<char>) -> (r: String)
    ensures
        r@ == v@,
{
    v.iter().collect()
}

/// Copies the characters of `v` between positions `from` and `to`.
pub fn vec_subrange(v: &Vec<char>, from: usize, to: usize) -> (r: Vec<char>)
    requires
        from <= to <= v@.len(),
    ensures
        r@ == v@.subrange(from as int, to as int),
{
    let mut out: Vec<char> = Vec::new();
    let mut i: usize = from;
    while i < to
        invariant
            from <= i <= to <= v@.len(),
            out@ == v@.subrange(from as int, i as int),
        decreases to - i,
    {
        out.push(v[i]);
        proof {
            assert(v@.subrange(from as int, i + 1 as int) =~= v@.subrange(
                from as int,
                i as int,
            ).push(v@[i as int]));
        }
        i = i + 1;
    }
    out
}

/// Concatenation of two character vectors.
pub fn vec_concat(a: &Vec<char>, b: &Vec<char>) -> (r: Vec<char>)
    ensures
        r@ == a@ + b@,
{
    let mut out: Vec<char> = a.clone();
    let mut i: usize = 0;
    while i < b.len()
        invariant
            i <= b@.len(),
            out@ == a@ + b@.subrange(0, i as int),
        decreases b@.len() - i,
    {
        out.push(b[i]);
        proof {
            assert(a@ + b@.subrange(0, i + 1 as int) =~= (a@ + b@.subrange(0, i as int)).push(
                b@[i as int],
            ));
        }
        i = i + 1;
    }
    proof {
        assert(a@ + b@.subrange(0, b@.len() as int) =~= a@ + b@);
    }
    out
}

/// Position of the first occurrence of `c` in `s` at or after `i`;
/// `s.len()` when there is none.
pub open spec fn find_char(s: Seq<char>, i: int, c: char) -> int
    decreases s.len() - i when 0 <= i <= s.len()
{
    if i >= s.len() {
        s.len() as int
    } else if s[i] == c {
        i
    } else {
        find_char(s, i + 1, c)
    }
}

/// `find_char` really is the first occurrence at or after `i`.
pub proof fn lemma_find_char(s: Seq<char>, i: int, c: char)
    requires
        0 <= i <= s.len(),
    ensures
        i <= find_char(s, i, c) <= s.len(),
        forall|k: int| i <= k < find_char(s, i, c) ==> s[k] != c,
        find_char(s, i, c) < s.len() ==> s[find_char(s, i, c)] == c,
    decreases s.len() - i,
{
    if i < s.len() && s[i] != c {
        lemma_find_char(s, i + 1, c);
    }
}

/// Searching a suffix finds the same position, shifted.
pub proof fn lemma_find_char_shift(s: Seq<char>, i: int, c: char)
    requires
        0 <= i <= s.len(),
    ensures
        find_char(s, i, c) == i + find_char(s.subrange(i, s.len() as int), 0, c),
{
    let sub = s.subrange(i, s.len() as int);
    lemma_find_char(s, i, c);
    lemma_find_char(sub, 0, c);
    let a = find_char(s, i, c);
    let b = find_char(sub, 0, c);
    assert forall|k: int| 0 <= k < a - i implies sub[k] != c by {
        assert(sub[k] == s[i + k]);
    }
    if a < s.len() {
        assert(sub[a - i] == s[a]);
        assert(b == a - i);
    } else {
        assert forall|k: int| 0 <= k < sub.len() implies sub[k] != c by {
            assert(sub[k] == s[i + k]);
        }
        assert(b == sub.len());
    }
}

/// Executable scan for the first occurrence of `c` at or after `i`.
pub fn find_char_exec(v: &Vec<char>, i: usize, c: char) -> (r: usize)
    requires
        i <= v@.len(),
    ensures
        r == find_char(v@, i as int, c),
{
    proof {
        lemma_find_char(v@, i as int, c);
    }
    let mut j: usize = i;
    while j < v.len()
        invariant
            i <= j <= v@.len(),
            forall|k: int| i <= k < j ==> v@[k] != c,
            i <= find_char(v@, i as int, c) <= v@.len(),
            forall|k: int| i <= k < find_char(v@, i as int, c) ==> v@[k] != c,
            find_char(v@, i as int, c) < v@.len() ==> v@[find_char(v@, i as int, c)] == c,
        decreases v@.len() - j,
    {
        if v[j] == c {
            proof {
                let f = find_char(v@, i as int, c);
                if f != j {
                    if f < j {
                        assert(v@[f] != c);
                    } else {
                        assert(v@[j as int] != c);
                    }
                }
            }
            return j;
        }
        j = j + 1;
    }
    proof {
        let f = find_char(v@, i as int, c);
        if f < v@.len() {
            assert(v@[f] != c);
        }
    }
    v.len()
}

} // verus!
