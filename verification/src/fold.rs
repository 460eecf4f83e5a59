//! ASCII case folding, the case-insensitivity notion used throughout the
//! engine: needles, file content, asset deduplication keys and the
//! extension allow-list are all compared after folding every ASCII
//! uppercase letter to its lowercase counterpart.
use vstd::prelude::*;

verus! {

/// Folds one character: ASCII uppercase letters map to lowercase,
/// everything else is unchanged.
pub open spec fn fold_char(c: char) -> char {
    if 'A' <= c && c <= 'Z' {
        ((c as u8) + 0x20) as char
    } else {
        c
    }
}

/// Folds a whole character sequence, character by character.
pub open spec fn fold_seq(s: Seq<char>) -> Seq<char> {
    s.map_values(|c: char| fold_char(c))
}

/// Folding is character-wise, so it distributes over concatenation.
pub proof fn lemma_fold_seq_add(a: Seq<char>, b: Seq<char>)
    ensures
        fold_seq(a + b) == fold_seq(a) + fold_seq(b),
{
    assert(fold_seq(a + b) =~= fold_seq(a) + fold_seq(b));
}

/// Folding commutes with taking a subrange.
pub proof fn lemma_fold_seq_subrange(s: Seq<char>, i: int, j: int)
    requires
        0 <= i <= j <= s.len(),
    ensures
        fold_seq(s.subrange(i, j)) == fold_seq(s).subrange(i, j),
{
    assert(fold_seq(s.subrange(i, j)) =~= fold_seq(s).subrange(i, j));
}

/// Executable fold of one character.
pub fn fold_char_exec(c: char) -> (r: char)
    ensures
        r == fold_char(c),
{
    if 'A' <= c && c <= 'Z' {
        ((c as u8) + 0x20) as char
    } else {
        c
    }
}

/// Executable fold of a character vector.
pub fn fold_chars(v: &Vec<char>) -> (r: Vec<char>)
    ensures
        r@ == fold_seq(v@),
{
    let mut out: Vec<char> = Vec::new();
    let mut i: usize = 0;
    while i < v.len()
        invariant
            i <= v.len(),
            out@ == fold_seq(v@.subrange(0, i as int)),
        decreases v.len() - i,
    {
        out.push(fold_char_exec(v[i]));
        proof {
            assert(fold_seq(v@.subrange(0, i + 1 as int)) =~= fold_seq(
                v@.subrange(0, i as int),
            ).push(fold_char(v@[i as int])));
        }
        i = i + 1;
    }
    proof {
        assert(v@.subrange(0, v@.len() as int) =~= v@);
    }
    out
}

} // verus!
