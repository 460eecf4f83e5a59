//! Asset path normalization and list post-processing: trimming, file-URL
//! scheme stripping, slash conversion, XML entity unescaping, extension
//! filtering, case-insensitive deduplication and lexicographic sorting.
use vstd::prelude::*;
use crate::chars::{chars_to_string, str_chars, vec_subrange};
use crate::fold::{fold_char, fold_char_exec, fold_chars, fold_seq};
use crate::search::match_at;

verus! {

/// Whitespace as trimmed from candidate values.
pub open spec fn is_ws(c: char) -> bool {
    c == ' ' || c == '\t' || c == '\n' || c == '\r'
}

/// First position at or after `i` holding a non-whitespace character;
/// `s.len()` when there is none.
pub open spec fn skip_ws_from(s: Seq<char>, i: int) -> int
    decreases s.len() - i when 0 <= i <= s.len()
{
    if i >= s.len() {
        s.len() as int
    } else if is_ws(s[i]) {
        skip_ws_from(s, i + 1)
    } else {
        i
    }
}

/// `skip_ws_from` really is the first non-whitespace position.
pub proof fn lemma_skip_ws_from(s: Seq<char>, i: int)
    requires
        0 <= i <= s.len(),
    ensures
        i <= skip_ws_from(s, i) <= s.len(),
        forall|k: int| i <= k < skip_ws_from(s, i) ==> is_ws(s[k]),
        skip_ws_from(s, i) < s.len() ==> !is_ws(s[skip_ws_from(s, i)]),
    decreases s.len() - i,
{
    if i < s.len() && is_ws(s[i]) {
        lemma_skip_ws_from(s, i + 1);
    }
}

/// End of the whitespace run ending just before `j`: the least position
/// `b` such that everything in `[b, j)` is whitespace.
pub open spec fn ws_run_start(s: Seq<char>, j: int) -> int
    decreases j when 0 <= j <= s.len()
{
    if j > 0 && is_ws(s[j - 1]) {
        ws_run_start(s, j - 1)
    } else {
        j
    }
}

/// `ws_run_start` really delimits the trailing whitespace run.
pub proof fn lemma_ws_run_start(s: Seq<char>, j: int)
    requires
        0 <= j <= s.len(),
    ensures
        0 <= ws_run_start(s, j) <= j,
        forall|k: int| ws_run_start(s, j) <= k < j ==> is_ws(s[k]),
        ws_run_start(s, j) > 0 ==> !is_ws(s[ws_run_start(s, j) - 1]),
    decreases j,
{
    if j > 0 && is_ws(s[j - 1]) {
        lemma_ws_run_start(s, j - 1);
    }
}

/// Surrounding whitespace removed.
pub open spec fn trim_spec(s: Seq<char>) -> Seq<char> {
    let a = skip_ws_from(s, 0);
    let b = ws_run_start(s, s.len() as int);
    if a <= b {
        s.subrange(a, b)
    } else {
        Seq::empty()
    }
}

/// Executable whitespace test.
pub fn is_ws_exec(c: char) -> (r: bool)
    ensures
        r == is_ws(c),
{
    c == ' ' || c == '\t' || c == '\n' || c == '\r'
}

/// Executable trim.
pub fn trim_chars(v: &Vec<char>) -> (r: Vec<char>)
    ensures
        r@ == trim_spec(v@),
{
    proof {
        lemma_skip_ws_from(v@, 0);
        lemma_ws_run_start(v@, v@.len() as int);
    }
    let n = v.len();
    let mut a: usize = 0;
    while a < n && is_ws_exec(v[a])
        invariant
            a <= n,
            n == v@.len(),
            forall|k: int| 0 <= k < a ==> is_ws(v@[k]),
        decreases n - a,
    {
        a = a + 1;
    }
    let mut b: usize = n;
    while b > 0 && is_ws_exec(v[b - 1])
        invariant
            b <= n,
            n == v@.len(),
            forall|k: int| b <= k < n ==> is_ws(v@[k]),
        decreases b,
    {
        b = b - 1;
    }
    proof {
        let sa = skip_ws_from(v@, 0);
        let sb = ws_run_start(v@, v@.len() as int);
        if a < n {
            assert(!is_ws(v@[a as int]));
        }
        if sa < v@.len() {
            assert(!is_ws(v@[sa]));
        }
        assert(a == sa);
        if b > 0 {
            assert(!is_ws(v@[b - 1]));
        }
        if sb > 0 {
            assert(!is_ws(v@[sb - 1]));
        }
        assert(b == sb);
    }
    if a <= b {
        vec_subrange(v, a, b)
    } else {
        let empty: Vec<char> = Vec::new();
        empty
    }
}

/// The lowercase characters of the triple-slash file-URL scheme prefix.
pub open spec fn file_scheme3() -> Seq<char> {
    seq!['f', 'i', 'l', 'e', ':', '/', '/', '/']
}

/// The lowercase characters of the double-slash file-URL scheme prefix.
pub open spec fn file_scheme2() -> Seq<char> {
    seq!['f', 'i', 'l', 'e', ':', '/', '/']
}

/// Case-insensitive prefix test against an already lowercase pattern.
pub open spec fn starts_with_ci(s: Seq<char>, p: Seq<char>) -> bool {
    s.len() >= p.len() && fold_seq(s.subrange(0, p.len() as int)) == p
}

/// A leading file-URL scheme removed, the triple-slash form first.
pub open spec fn strip_scheme(s: Seq<char>) -> Seq<char> {
    if starts_with_ci(s, file_scheme3()) {
        s.subrange(8, s.len() as int)
    } else if starts_with_ci(s, file_scheme2()) {
        s.subrange(7, s.len() as int)
    } else {
        s
    }
}

/// Executable case-insensitive prefix test.
fn has_prefix_ci(v: &Vec<char>, p: &Vec<char>) -> (r: bool)
    ensures
        r == starts_with_ci(v@, p@),
{
    if v.len() < p.len() {
        return false;
    }
    let mut i: usize = 0;
    while i < p.len()
        invariant
            i <= p@.len() <= v@.len(),
            forall|k: int| 0 <= k < i ==> fold_char(v@[k]) == p@[k],
        decreases p@.len() - i,
    {
        if fold_char_exec(v[i]) != p[i] {
            proof {
                assert(fold_seq(v@.subrange(0, p@.len() as int))[i as int] == fold_char(
                    v@[i as int],
                ));
            }
            return false;
        }
        i = i + 1;
    }
    proof {
        assert(fold_seq(v@.subrange(0, p@.len() as int)) =~= p@);
    }
    true
}

/// The characters of the triple-slash scheme prefix.
fn file_scheme3_chars() -> (r: Vec<char>)
    ensures
        r@ == file_scheme3(),
{
    let mut v: Vec<char> = Vec::new();
    v.push('f');
    v.push('i');
    v.push('l');
    v.push('e');
    v.push(':');
    v.push('/');
    v.push('/');
    v.push('/');
    proof {
        assert(v@ =~= file_scheme3());
    }
    v
}

/// The characters of the double-slash scheme prefix.
fn file_scheme2_chars() -> (r: Vec<char>)
    ensures
        r@ == file_scheme2(),
{
    let mut v: Vec<char> = Vec::new();
    v.push('f');
    v.push('i');
    v.push('l');
    v.push('e');
    v.push(':');
    v.push('/');
    v.push('/');
    proof {
        assert(v@ =~= file_scheme2());
    }
    v
}

/// Executable scheme stripping.
fn strip_scheme_chars(v: &Vec<char>) -> (r: Vec<char>)
    ensures
        r@ == strip_scheme(v@),
{
    let p3 = file_scheme3_chars();
    if has_prefix_ci(v, &p3) {
        return vec_subrange(v, 8, v.len());
    }
    let p2 = file_scheme2_chars();
    if has_prefix_ci(v, &p2) {
        return vec_subrange(v, 7, v.len());
    }
    let r = v.clone();
    r
}

/// Forward slashes converted to backslashes.
pub open spec fn to_backslash(s: Seq<char>) -> Seq<char> {
    s.map_values(|c: char| if c == '/' { '\\' } else { c })
}

/// Executable slash conversion.
fn to_backslash_chars(v: &Vec<char>) -> (r: Vec<char>)
    ensures
        r@ == to_backslash(v@),
{
    let mut out: Vec<char> = Vec::new();
    let mut i: usize = 0;
    while i < v.len()
        invariant
            i <= v@.len(),
            out@ == to_backslash(v@.subrange(0, i as int)),
        decreases v@.len() - i,
    {
        let c = v[i];
        out.push(if c == '/' { '\\' } else { c });
        proof {
            assert(to_backslash(v@.subrange(0, i + 1 as int)) =~= to_backslash(
                v@.subrange(0, i as int),
            ).push(if v@[i as int] == '/' { '\\' } else { v@[i as int] }));
        }
        i = i + 1;
    }
    proof {
        assert(v@.subrange(0, v@.len() as int) =~= v@);
    }
    out
}

/// The five standard XML character entities.
pub open spec fn ent_amp() -> Seq<char> {
    seq!['&', 'a', 'm', 'p', ';']
}

pub open spec fn ent_quot() -> Seq<char> {
    seq!['&', 'q', 'u', 'o', 't', ';']
}

pub open spec fn ent_apos() -> Seq<char> {
    seq!['&', 'a', 'p', 'o', 's', ';']
}

pub open spec fn ent_lt() -> Seq<char> {
    seq!['&', 'l', 't', ';']
}

pub open spec fn ent_gt() -> Seq<char> {
    seq!['&', 'g', 't', ';']
}

/// An entity reference begins at position `i`.
pub open spec fn entity_at(s: Seq<char>, i: int) -> bool {
    ||| (i + 5 <= s.len() && s.subrange(i, i + 5) == ent_amp())
    ||| (i + 6 <= s.len() && s.subrange(i, i + 6) == ent_quot())
    ||| (i + 6 <= s.len() && s.subrange(i, i + 6) == ent_apos())
    ||| (i + 4 <= s.len() && s.subrange(i, i + 4) == ent_lt())
    ||| (i + 4 <= s.len() && s.subrange(i, i + 4) == ent_gt())
}

/// Single left-to-right pass replacing the five standard XML entities by
/// the characters they denote.
pub open spec fn unescape(s: Seq<char>) -> Seq<char>
    decreases s.len(),
{
    if s.len() == 0 {
        Seq::empty()
    } else if s.len() >= 5 && s.subrange(0, 5) == ent_amp() {
        seq!['&'] + unescape(s.subrange(5, s.len() as int))
    } else if s.len() >= 6 && s.subrange(0, 6) == ent_quot() {
        seq!['"'] + unescape(s.subrange(6, s.len() as int))
    } else if s.len() >= 6 && s.subrange(0, 6) == ent_apos() {
        seq!['\''] + unescape(s.subrange(6, s.len() as int))
    } else if s.len() >= 4 && s.subrange(0, 4) == ent_lt() {
        seq!['<'] + unescape(s.subrange(4, s.len() as int))
    } else if s.len() >= 4 && s.subrange(0, 4) == ent_gt() {
        seq!['>'] + unescape(s.subrange(4, s.len() as int))
    } else {
        seq![s[0]] + unescape(s.subrange(1, s.len() as int))
    }
}

/// The characters of one entity, for executable comparison.
fn ent_amp_chars() -> (r: Vec<char>)
    ensures
        r@ == ent_amp(),
{
    let mut v: Vec<char> = Vec::new();
    v.push('&');
    v.push('a');
    v.push('m');
    v.push('p');
    v.push(';');
    proof {
        assert(v@ =~= ent_amp());
    }
    v
}

fn ent_quot_chars() -> (r: Vec<char>)
    ensures
        r@ == ent_quot(),
{
    let mut v: Vec<char> = Vec::new();
    v.push('&');
    v.push('q');
    v.push('u');
    v.push('o');
    v.push('t');
    v.push(';');
    proof {
        assert(v@ =~= ent_quot());
    }
    v
}

fn ent_apos_chars() -> (r: Vec<char>)
    ensures
        r@ == ent_apos(),
{
    let mut v: Vec<char> = Vec::new();
    v.push('&');
    v.push('a');
    v.push('p');
    v.push('o');
    v.push('s');
    v.push(';');
    proof {
        assert(v@ =~= ent_apos());
    }
    v
}

fn ent_lt_chars() -> (r: Vec<char>)
    ensures
        r@ == ent_lt(),
{
    let mut v: Vec<char> = Vec::new();
    v.push('&');
    v.push('l');
    v.push('t');
    v.push(';');
    proof {
        assert(v@ =~= ent_lt());
    }
    v
}

fn ent_gt_chars() -> (r: Vec<char>)
    ensures
        r@ == ent_gt(),
{
    let mut v: Vec<char> = Vec::new();
    v.push('&');
    v.push('g');
    v.push('t');
    v.push(';');
    proof {
        assert(v@ =~= ent_gt());
    }
    v
}

/// `lit` occurs in `v` at position `pos`.
fn lit_at(v: &Vec<char>, pos: usize, lit: &Vec<char>) -> (r: bool)
    requires
        pos <= v@.len(),
    ensures
        r == (pos + lit@.len() <= v@.len() && v@.subrange(pos as int, pos + lit@.len() as int)
            == lit@),
{
    if v.len() - pos < lit.len() {
        return false;
    }
    match_at(v, lit, pos)
}

/// Executable single-pass entity unescaping.
pub fn unescape_chars(v: &Vec<char>) -> (r: Vec<char>)
    ensures
        r@ == unescape(v@),
{
    let amp = ent_amp_chars();
    let quot = ent_quot_chars();
    let apos = ent_apos_chars();
    let lt = ent_lt_chars();
    let gt = ent_gt_chars();
    let n = v.len();
    let mut out: Vec<char> = Vec::new();
    let mut pos: usize = 0;
    proof {
        assert(v@.subrange(0, n as int) =~= v@);
        assert(Seq::<char>::empty() + unescape(v@) =~= unescape(v@));
    }
    while pos < n
        invariant
            pos <= n,
            n == v@.len(),
            amp@ == ent_amp(),
            quot@ == ent_quot(),
            apos@ == ent_apos(),
            lt@ == ent_lt(),
            gt@ == ent_gt(),
            out@ + unescape(v@.subrange(pos as int, n as int)) == unescape(v@),
        decreases n - pos,
    {
        let ghost rest = v@.subrange(pos as int, n as int);
        let ghost prev = out@;
        let step: usize;
        if lit_at(v, pos, &amp) {
            out.push('&');
            step = 5;
            proof {
                assert(rest.subrange(0, 5) =~= v@.subrange(pos as int, pos + 5 as int));
                assert(unescape(rest) == seq!['&'] + unescape(rest.subrange(5, rest.len() as int)));
            }
        } else if lit_at(v, pos, &quot) {
            out.push('"');
            step = 6;
            proof {
                assert(rest.subrange(0, 6) =~= v@.subrange(pos as int, pos + 6 as int));
                if rest.len() >= 5 && rest.subrange(0, 5) == ent_amp() {
                    assert(v@.subrange(pos as int, pos + 5 as int) =~= rest.subrange(0, 5));
                }
                assert(unescape(rest) == seq!['"'] + unescape(rest.subrange(6, rest.len() as int)));
            }
        } else if lit_at(v, pos, &apos) {
            out.push('\'');
            step = 6;
            proof {
                assert(rest.subrange(0, 6) =~= v@.subrange(pos as int, pos + 6 as int));
                if rest.len() >= 5 && rest.subrange(0, 5) == ent_amp() {
                    assert(v@.subrange(pos as int, pos + 5 as int) =~= rest.subrange(0, 5));
                }
                if rest.len() >= 6 && rest.subrange(0, 6) == ent_quot() {
                    assert(v@.subrange(pos as int, pos + 6 as int) =~= rest.subrange(0, 6));
                }
                assert(unescape(rest) == seq!['\''] + unescape(
                    rest.subrange(6, rest.len() as int),
                ));
            }
        } else if lit_at(v, pos, &lt) {
            out.push('<');
            step = 4;
            proof {
                assert(rest.subrange(0, 4) =~= v@.subrange(pos as int, pos + 4 as int));
                if rest.len() >= 5 && rest.subrange(0, 5) == ent_amp() {
                    assert(v@.subrange(pos as int, pos + 5 as int) =~= rest.subrange(0, 5));
                }
                if rest.len() >= 6 && rest.subrange(0, 6) == ent_quot() {
                    assert(v@.subrange(pos as int, pos + 6 as int) =~= rest.subrange(0, 6));
                }
                if rest.len() >= 6 && rest.subrange(0, 6) == ent_apos() {
                    assert(v@.subrange(pos as int, pos + 6 as int) =~= rest.subrange(0, 6));
                }
                assert(unescape(rest) == seq!['<'] + unescape(rest.subrange(4, rest.len() as int)));
            }
        } else if lit_at(v, pos, &gt) {
            out.push('>');
            step = 4;
            proof {
                assert(rest.subrange(0, 4) =~= v@.subrange(pos as int, pos + 4 as int));
                if rest.len() >= 5 && rest.subrange(0, 5) == ent_amp() {
                    assert(v@.subrange(pos as int, pos + 5 as int) =~= rest.subrange(0, 5));
                }
                if rest.len() >= 6 && rest.subrange(0, 6) == ent_quot() {
                    assert(v@.subrange(pos as int, pos + 6 as int) =~= rest.subrange(0, 6));
                }
                if rest.len() >= 6 && rest.subrange(0, 6) == ent_apos() {
                    assert(v@.subrange(pos as int, pos + 6 as int) =~= rest.subrange(0, 6));
                }
                if rest.len() >= 4 && rest.subrange(0, 4) == ent_lt() {
                    assert(v@.subrange(pos as int, pos + 4 as int) =~= rest.subrange(0, 4));
                }
                assert(unescape(rest) == seq!['>'] + unescape(rest.subrange(4, rest.len() as int)));
            }
        } else {
            out.push(v[pos]);
            step = 1;
            proof {
                if rest.len() >= 5 && rest.subrange(0, 5) == ent_amp() {
                    assert(v@.subrange(pos as int, pos + 5 as int) =~= rest.subrange(0, 5));
                }
                if rest.len() >= 6 && rest.subrange(0, 6) == ent_quot() {
                    assert(v@.subrange(pos as int, pos + 6 as int) =~= rest.subrange(0, 6));
                }
                if rest.len() >= 6 && rest.subrange(0, 6) == ent_apos() {
                    assert(v@.subrange(pos as int, pos + 6 as int) =~= rest.subrange(0, 6));
                }
                if rest.len() >= 4 && rest.subrange(0, 4) == ent_lt() {
                    assert(v@.subrange(pos as int, pos + 4 as int) =~= rest.subrange(0, 4));
                }
                if rest.len() >= 4 && rest.subrange(0, 4) == ent_gt() {
                    assert(v@.subrange(pos as int, pos + 4 as int) =~= rest.subrange(0, 4));
                }
                assert(rest[0] == v@[pos as int]);
                assert(unescape(rest) == seq![rest[0]] + unescape(
                    rest.subrange(1, rest.len() as int),
                ));
            }
        }
        proof {
            assert(rest.subrange(step as int, rest.len() as int) =~= v@.subrange(
                pos + step as int,
                n as int,
            ));
            assert(out@ + unescape(v@.subrange(pos + step as int, n as int)) =~= prev + unescape(
                rest,
            ));
        }
        pos = pos + step;
    }
    proof {
        assert(v@.subrange(n as int, n as int) =~= Seq::<char>::empty());
        assert(out@ + unescape(Seq::<char>::empty()) =~= out@);
    }
    out
}

/// Full normalization of a raw candidate value: trim surrounding
/// whitespace, strip a leading file-URL scheme, convert forward slashes
/// to backslashes, then unescape the five standard XML entities.
pub open spec fn normalize_spec(s: Seq<char>) -> Seq<char> {
    unescape(to_backslash(strip_scheme(trim_spec(s))))
}

/// Executable normalization over character vectors.
pub fn normalize_chars(v: &Vec<char>) -> (r: Vec<char>)
    ensures
        r@ == normalize_spec(v@),
{
    let t = trim_chars(v);
    let s = strip_scheme_chars(&t);
    let b = to_backslash_chars(&s);
    unescape_chars(&b)
}

/// Normalizes one raw asset path value.
pub fn normalize_asset_path(raw: &str) -> (r: String)
    ensures
        r@ == normalize_spec(raw@),
{
    let v = str_chars(raw);
    let n = normalize_chars(&v);
    chars_to_string(&n)
}

/// Some entity reference occurs somewhere in `s`.
pub open spec fn has_entity(s: Seq<char>) -> bool {
    exists|i: int| 0 <= i && #[trigger] entity_at(s, i)
}

/// Unescaping leaves a text without entity references unchanged.
pub proof fn lemma_unescape_id(s: Seq<char>)
    requires
        !has_entity(s),
    ensures
        unescape(s) == s,
    decreases s.len(),
{
    if s.len() == 0 {
        assert(unescape(s) =~= s);
    } else {
        assert(!entity_at(s, 0));
        let tail = s.subrange(1, s.len() as int);
        assert forall|i: int| 0 <= i && #[trigger] entity_at(tail, i) implies false by {
            if i + 5 <= tail.len() {
                assert(tail.subrange(i, i + 5) =~= s.subrange(i + 1, i + 6));
            }
            if i + 6 <= tail.len() {
                assert(tail.subrange(i, i + 6) =~= s.subrange(i + 1, i + 7));
            }
            if i + 4 <= tail.len() {
                assert(tail.subrange(i, i + 4) =~= s.subrange(i + 1, i + 5));
            }
            assert(entity_at(s, i + 1));
        }
        lemma_unescape_id(tail);
        assert(unescape(s) == seq![s[0]] + tail);
        assert(seq![s[0]] + tail =~= s);
    }
}

/// Unescaping never produces a forward slash out of a text that has none.
pub proof fn lemma_unescape_no_slash(s: Seq<char>)
    requires
        forall|i: int| 0 <= i < s.len() ==> s[i] != '/',
    ensures
        forall|i: int| 0 <= i < unescape(s).len() ==> unescape(s)[i] != '/',
    decreases s.len(),
{
    if s.len() != 0 {
        let r = unescape(s);
        let skip: int = if s.len() >= 5 && s.subrange(0, 5) == ent_amp() {
            5
        } else if s.len() >= 6 && s.subrange(0, 6) == ent_quot() {
            6
        } else if s.len() >= 6 && s.subrange(0, 6) == ent_apos() {
            6
        } else if s.len() >= 4 && s.subrange(0, 4) == ent_lt() {
            4
        } else if s.len() >= 4 && s.subrange(0, 4) == ent_gt() {
            4
        } else {
            1
        };
        let rest = s.subrange(skip, s.len() as int);
        lemma_unescape_no_slash(rest);
        assert forall|i: int| 0 <= i < r.len() implies r[i] != '/' by {
            if i > 0 {
                assert(r[i] == unescape(rest)[i - 1]);
            }
        }
    }
}

/// Unescaping a non-empty text yields a non-empty text, and keeps a
/// non-whitespace final character non-whitespace.
pub proof fn lemma_unescape_last(s: Seq<char>)
    requires
        s.len() > 0,
    ensures
        unescape(s).len() > 0,
        !is_ws(s.last()) ==> !is_ws(unescape(s).last()),
    decreases s.len(),
{
    let r = unescape(s);
    if s.len() >= 5 && s.subrange(0, 5) == ent_amp() {
        let rest = s.subrange(5, s.len() as int);
        if rest.len() == 0 {
            assert(unescape(rest) =~= Seq::<char>::empty());
            assert(r =~= seq!['&']);
        } else {
            lemma_unescape_last(rest);
            assert(rest.last() == s.last());
            assert(r.last() == unescape(rest).last());
        }
    } else if s.len() >= 6 && s.subrange(0, 6) == ent_quot() {
        let rest = s.subrange(6, s.len() as int);
        if rest.len() == 0 {
            assert(unescape(rest) =~= Seq::<char>::empty());
            assert(r =~= seq!['"']);
        } else {
            lemma_unescape_last(rest);
            assert(rest.last() == s.last());
            assert(r.last() == unescape(rest).last());
        }
    } else if s.len() >= 6 && s.subrange(0, 6) == ent_apos() {
        let rest = s.subrange(6, s.len() as int);
        if rest.len() == 0 {
            assert(unescape(rest) =~= Seq::<char>::empty());
            assert(r =~= seq!['\'']);
        } else {
            lemma_unescape_last(rest);
            assert(rest.last() == s.last());
            assert(r.last() == unescape(rest).last());
        }
    } else if s.len() >= 4 && s.subrange(0, 4) == ent_lt() {
        let rest = s.subrange(4, s.len() as int);
        if rest.len() == 0 {
            assert(unescape(rest) =~= Seq::<char>::empty());
            assert(r =~= seq!['<']);
        } else {
            lemma_unescape_last(rest);
            assert(rest.last() == s.last());
            assert(r.last() == unescape(rest).last());
        }
    } else if s.len() >= 4 && s.subrange(0, 4) == ent_gt() {
        let rest = s.subrange(4, s.len() as int);
        if rest.len() == 0 {
            assert(unescape(rest) =~= Seq::<char>::empty());
            assert(r =~= seq!['>']);
        } else {
            lemma_unescape_last(rest);
            assert(rest.last() == s.last());
            assert(r.last() == unescape(rest).last());
        }
    } else {
        let rest = s.subrange(1, s.len() as int);
        if rest.len() == 0 {
            assert(unescape(rest) =~= Seq::<char>::empty());
            assert(r =~= seq![s[0]]);
        } else {
            lemma_unescape_last(rest);
            assert(rest.last() == s.last());
            assert(r.last() == unescape(rest).last());
        }
    }
}

/// Folding a character to a forward slash means it was one already.
pub proof fn lemma_fold_slash(c: char)
    ensures
        (fold_char(c) == '/') == (c == '/'),
{
}

/// Law: normalization is idempotent.  Renormalizing a normalized path
/// returns it unchanged, provided the normalized path does not itself
/// begin with whitespace (a leading file-URL scheme can expose one) and
/// holds no entity reference (unescaping can uncover a nested one).
pub proof fn lemma_normalize_idempotent(p: Seq<char>)
    requires
        normalize_spec(p).len() > 0 ==> !is_ws(normalize_spec(p)[0]),
        !has_entity(normalize_spec(p)),
    ensures
        normalize_spec(normalize_spec(p)) == normalize_spec(p),
{
    let t = trim_spec(p);
    let ss = strip_scheme(t);
    let bb = to_backslash(ss);
    let n = normalize_spec(p);
    assert(n == unescape(bb));
    // the normalized path holds no forward slash
    assert forall|i: int| 0 <= i < bb.len() implies bb[i] != '/' by {
        assert(bb[i] == if ss[i] == '/' { '\\' } else { ss[i] });
    }
    lemma_unescape_no_slash(bb);
    if n.len() == 0 {
        assert(trim_spec(n) =~= n);
        assert(strip_scheme(n) == n);
        assert(to_backslash(n) =~= n);
        lemma_unescape_id(n);
    } else {
        // the normalized path ends in a non-whitespace character
        lemma_skip_ws_from(p, 0);
        lemma_ws_run_start(p, p.len() as int);
        assert(bb.len() > 0);
        assert(ss.len() > 0);
        assert(t.len() > 0);
        assert(!is_ws(t.last()));
        assert(ss.last() == t.last());
        assert(bb.last() == if ss.last() == '/' { '\\' } else { ss.last() });
        assert(!is_ws(bb.last()));
        lemma_unescape_last(bb);
        assert(!is_ws(n.last()));
        // hence trimming does nothing
        lemma_skip_ws_from(n, 0);
        lemma_ws_run_start(n, n.len() as int);
        assert(skip_ws_from(n, 0) == 0);
        assert(ws_run_start(n, n.len() as int) == n.len());
        assert(trim_spec(n) =~= n);
        // no slash, hence no scheme prefix and no slash conversion
        if starts_with_ci(n, file_scheme3()) {
            assert(fold_seq(n.subrange(0, 8))[5] == fold_char(n[5]));
            assert(fold_char(n[5]) == '/');
            lemma_fold_slash(n[5]);
            assert(false);
        }
        if starts_with_ci(n, file_scheme2()) {
            assert(fold_seq(n.subrange(0, 7))[5] == fold_char(n[5]));
            assert(fold_char(n[5]) == '/');
            lemma_fold_slash(n[5]);
            assert(false);
        }
        assert(strip_scheme(n) == n);
        assert(to_backslash(n) =~= n);
        lemma_unescape_id(n);
    }
}

/// Position of the last occurrence of `c` in `s`, `-1` when there is none.
pub open spec fn rfind(s: Seq<char>, c: char) -> int
    decreases s.len(),
{
    if s.len() == 0 {
        -1
    } else if s.last() == c {
        s.len() - 1
    } else {
        rfind(s.drop_last(), c)
    }
}

/// `rfind` really is the last occurrence.
pub proof fn lemma_rfind(s: Seq<char>, c: char)
    ensures
        -1 <= rfind(s, c) < s.len(),
        rfind(s, c) >= 0 ==> s[rfind(s, c)] == c,
        forall|k: int| rfind(s, c) < k < s.len() ==> s[k] != c,
    decreases s.len(),
{
    if s.len() > 0 && s.last() != c {
        lemma_rfind(s.drop_last(), c);
        assert forall|k: int| rfind(s, c) < k < s.len() implies s[k] != c by {
            if k < s.len() - 1 {
                assert(s.drop_last()[k] == s[k]);
            }
        }
    }
}

/// Executable scan for the last occurrence of `c`.
pub fn rfind_exec(v: &Vec<char>, c: char) -> (r: Option<usize>)
    ensures
        match r {
            Some(i) => rfind(v@, c) == i,
            None => rfind(v@, c) == -1,
        },
{
    proof {
        lemma_rfind(v@, c);
    }
    let mut j: usize = v.len();
    while j > 0
        invariant
            j <= v@.len(),
            forall|k: int| j <= k < v@.len() ==> v@[k] != c,
            -1 <= rfind(v@, c) < v@.len(),
            rfind(v@, c) >= 0 ==> v@[rfind(v@, c)] == c,
            forall|k: int| rfind(v@, c) < k < v@.len() ==> v@[k] != c,
        decreases j,
    {
        if v[j - 1] == c {
            proof {
                let f = rfind(v@, c);
                if f != j - 1 {
                    if f < j - 1 {
                        assert(v@[j - 1] != c);
                    } else {
                        assert(v@[f] != c);
                    }
                }
            }
            return Some(j - 1);
        }
        j = j - 1;
    }
    proof {
        let f = rfind(v@, c);
        if f >= 0 {
            assert(v@[f] != c);
        }
    }
    None
}

/// The extension of a path: the characters after the last `.` of the
/// final path component, provided that dot is preceded by at least one
/// character of the component.
pub open spec fn ext_of(p: Seq<char>) -> Option<Seq<char>> {
    let comp_start = rfind(p, '\\') + 1;
    let comp = p.subrange(comp_start, p.len() as int);
    let d = rfind(comp, '.');
    if d >= 1 {
        Some(comp.subrange(d + 1, comp.len() as int))
    } else {
        None
    }
}

/// Executable extension extraction.
pub fn ext_of_exec(v: &Vec<char>) -> (r: Option<Vec<char>>)
    ensures
        match r {
            Some(e) => ext_of(v@) is Some && e@ == ext_of(v@)->0,
            None => ext_of(v@) is None,
        },
{
    let n = v.len();
    proof {
        lemma_rfind(v@, '\\');
    }
    let comp_start: usize = match rfind_exec(v, '\\') {
        Some(i) => {
            proof {
                assert(i < n);
            }
            i + 1
        },
        None => 0,
    };
    let comp = vec_subrange(v, comp_start, v.len());
    proof {
        lemma_rfind(comp@, '.');
    }
    match rfind_exec(&comp, '.') {
        Some(d) if d >= 1 => Some(vec_subrange(&comp, d + 1, comp.len())),
        _ => None,
    }
}

/// The fixed allow-list of recognized asset file extensions, compared
/// over already case-folded characters: common video, audio, image and
/// graphics-template formats.
pub open spec fn is_asset_ext(e: Seq<char>) -> bool {
    ||| (e.len() == 3 && e[0] == 'm' && e[1] == 'p' && e[2] == '4')
    ||| (e.len() == 3 && e[0] == 'm' && e[1] == 'o' && e[2] == 'v')
    ||| (e.len() == 3 && e[0] == 'm' && e[1] == 'x' && e[2] == 'f')
    ||| (e.len() == 3 && e[0] == 'm' && e[1] == 't' && e[2] == 's')
    ||| (e.len() == 4 && e[0] == 'm' && e[1] == '2' && e[2] == 't' && e[3] == 's')
    ||| (e.len() == 3 && e[0] == 'a' && e[1] == 'v' && e[2] == 'i')
    ||| (e.len() == 3 && e[0] == 'm' && e[1] == 'k' && e[2] == 'v')
    ||| (e.len() == 3 && e[0] == 'w' && e[1] == 'm' && e[2] == 'v')
    ||| (e.len() == 3 && e[0] == 'm' && e[1] == '4' && e[2] == 'v')
    ||| (e.len() == 3 && e[0] == '3' && e[1] == 'g' && e[2] == 'p')
    ||| (e.len() == 3 && e[0] == 'w' && e[1] == 'a' && e[2] == 'v')
    ||| (e.len() == 3 && e[0] == 'm' && e[1] == 'p' && e[2] == '3')
    ||| (e.len() == 3 && e[0] == 'a' && e[1] == 'a' && e[2] == 'c')
    ||| (e.len() == 3 && e[0] == 'm' && e[1] == '4' && e[2] == 'a')
    ||| (e.len() == 3 && e[0] == 'a' && e[1] == 'i' && e[2] == 'f')
    ||| (e.len() == 4 && e[0] == 'a' && e[1] == 'i' && e[2] == 'f' && e[3] == 'f')
    ||| (e.len() == 4 && e[0] == 'f' && e[1] == 'l' && e[2] == 'a' && e[3] == 'c')
    ||| (e.len() == 3 && e[0] == 'o' && e[1] == 'g' && e[2] == 'g')
    ||| (e.len() == 3 && e[0] == 'p' && e[1] == 'n' && e[2] == 'g')
    ||| (e.len() == 3 && e[0] == 'j' && e[1] == 'p' && e[2] == 'g')
    ||| (e.len() == 4 && e[0] == 'j' && e[1] == 'p' && e[2] == 'e' && e[3] == 'g')
    ||| (e.len() == 3 && e[0] == 't' && e[1] == 'i' && e[2] == 'f')
    ||| (e.len() == 4 && e[0] == 't' && e[1] == 'i' && e[2] == 'f' && e[3] == 'f')
    ||| (e.len() == 3 && e[0] == 'b' && e[1] == 'm' && e[2] == 'p')
    ||| (e.len() == 3 && e[0] == 'g' && e[1] == 'i' && e[2] == 'f')
    ||| (e.len() == 3 && e[0] == 'p' && e[1] == 's' && e[2] == 'd')
    ||| (e.len() == 2 && e[0] == 'a' && e[1] == 'i')
    ||| (e.len() == 3 && e[0] == 's' && e[1] == 'v' && e[2] == 'g')
    ||| (e.len() == 3 && e[0] == 'd' && e[1] == 'n' && e[2] == 'g')
    ||| (e.len() == 3 && e[0] == 'c' && e[1] == 'r' && e[2] == '2')
    ||| (e.len() == 3 && e[0] == 'n' && e[1] == 'e' && e[2] == 'f')
    ||| (e.len() == 3 && e[0] == 'a' && e[1] == 'r' && e[2] == 'w')
    ||| (e.len() == 7 && e[0] == 'p' && e[1] == 'r' && e[2] == 'f' && e[3] == 'p' && e[4] == 's' && e[5] == 'e' && e[6] == 't')
    ||| (e.len() == 5 && e[0] == 'm' && e[1] == 'o' && e[2] == 'g' && e[3] == 'r' && e[4] == 't')
}

/// Executable allow-list test.
pub fn is_asset_ext_exec(v: &Vec<char>) -> (r: bool)
    ensures
        r == is_asset_ext(v@),
{
    (v.len() == 3 && v[0] == 'm' && v[1] == 'p' && v[2] == '4')
    || (v.len() == 3 && v[0] == 'm' && v[1] == 'o' && v[2] == 'v')
    || (v.len() == 3 && v[0] == 'm' && v[1] == 'x' && v[2] == 'f')
    || (v.len() == 3 && v[0] == 'm' && v[1] == 't' && v[2] == 's')
    || (v.len() == 4 && v[0] == 'm' && v[1] == '2' && v[2] == 't' && v[3] == 's')
    || (v.len() == 3 && v[0] == 'a' && v[1] == 'v' && v[2] == 'i')
    || (v.len() == 3 && v[0] == 'm' && v[1] == 'k' && v[2] == 'v')
    || (v.len() == 3 && v[0] == 'w' && v[1] == 'm' && v[2] == 'v')
    || (v.len() == 3 && v[0] == 'm' && v[1] == '4' && v[2] == 'v')
    || (v.len() == 3 && v[0] == '3' && v[1] == 'g' && v[2] == 'p')
    || (v.len() == 3 && v[0] == 'w' && v[1] == 'a' && v[2] == 'v')
    || (v.len() == 3 && v[0] == 'm' && v[1] == 'p' && v[2] == '3')
    || (v.len() == 3 && v[0] == 'a' && v[1] == 'a' && v[2] == 'c')
    || (v.len() == 3 && v[0] == 'm' && v[1] == '4' && v[2] == 'a')
    || (v.len() == 3 && v[0] == 'a' && v[1] == 'i' && v[2] == 'f')
    || (v.len() == 4 && v[0] == 'a' && v[1] == 'i' && v[2] == 'f' && v[3] == 'f')
    || (v.len() == 4 && v[0] == 'f' && v[1] == 'l' && v[2] == 'a' && v[3] == 'c')
    || (v.len() == 3 && v[0] == 'o' && v[1] == 'g' && v[2] == 'g')
    || (v.len() == 3 && v[0] == 'p' && v[1] == 'n' && v[2] == 'g')
    || (v.len() == 3 && v[0] == 'j' && v[1] == 'p' && v[2] == 'g')
    || (v.len() == 4 && v[0] == 'j' && v[1] == 'p' && v[2] == 'e' && v[3] == 'g')
    || (v.len() == 3 && v[0] == 't' && v[1] == 'i' && v[2] == 'f')
    || (v.len() == 4 && v[0] == 't' && v[1] == 'i' && v[2] == 'f' && v[3] == 'f')
    || (v.len() == 3 && v[0] == 'b' && v[1] == 'm' && v[2] == 'p')
    || (v.len() == 3 && v[0] == 'g' && v[1] == 'i' && v[2] == 'f')
    || (v.len() == 3 && v[0] == 'p' && v[1] == 's' && v[2] == 'd')
    || (v.len() == 2 && v[0] == 'a' && v[1] == 'i')
    || (v.len() == 3 && v[0] == 's' && v[1] == 'v' && v[2] == 'g')
    || (v.len() == 3 && v[0] == 'd' && v[1] == 'n' && v[2] == 'g')
    || (v.len() == 3 && v[0] == 'c' && v[1] == 'r' && v[2] == '2')
    || (v.len() == 3 && v[0] == 'n' && v[1] == 'e' && v[2] == 'f')
    || (v.len() == 3 && v[0] == 'a' && v[1] == 'r' && v[2] == 'w')
    || (v.len() == 7 && v[0] == 'p' && v[1] == 'r' && v[2] == 'f' && v[3] == 'p' && v[4] == 's' && v[5] == 'e' && v[6] == 't')
    || (v.len() == 5 && v[0] == 'm' && v[1] == 'o' && v[2] == 'g' && v[3] == 'r' && v[4] == 't')
}

/// Whether a normalized path carries a recognized asset extension.
pub open spec fn has_asset_ext(p: Seq<char>) -> bool {
    match ext_of(p) {
        Some(e) => is_asset_ext(fold_seq(e)),
        None => false,
    }
}

/// Executable test for a recognized asset extension.
pub fn has_asset_ext_exec(v: &Vec<char>) -> (r: bool)
    ensures
        r == has_asset_ext(v@),
{
    match ext_of_exec(v) {
        Some(e) => {
            let f = fold_chars(&e);
            is_asset_ext_exec(&f)
        },
        None => false,
    }
}

/// The normalized forms of the candidates that carry a recognized asset
/// extension, in document order.
pub open spec fn normalize_kept(cands: Seq<Seq<char>>) -> Seq<Seq<char>>
    decreases cands.len(),
{
    if cands.len() == 0 {
        Seq::empty()
    } else {
        let rest = normalize_kept(cands.drop_last());
        let n = normalize_spec(cands.last());
        if has_asset_ext(n) {
            rest.push(n)
        } else {
            rest
        }
    }
}

/// Some entry of `s` case-folds to `key`.
pub open spec fn has_key(s: Seq<Seq<char>>, key: Seq<char>) -> bool {
    exists|j: int| 0 <= j < s.len() && fold_seq(#[trigger] s[j]) == key
}

/// Keep-first deduplication by case-folded key.
pub open spec fn dedup_ci(s: Seq<Seq<char>>) -> Seq<Seq<char>>
    decreases s.len(),
{
    if s.len() == 0 {
        Seq::empty()
    } else {
        let rest = dedup_ci(s.drop_last());
        if has_key(s.drop_last(), fold_seq(s.last())) {
            rest
        } else {
            rest.push(s.last())
        }
    }
}

/// No two entries share a case-folded key.
pub open spec fn distinct_keys(s: Seq<Seq<char>>) -> bool {
    forall|i: int, j: int|
        0 <= i < j < s.len() ==> fold_seq(#[trigger] s[i]) != fold_seq(#[trigger] s[j])
}

/// Deduplication yields pairwise distinct keys and keeps exactly the
/// keys of its input.
pub proof fn lemma_dedup_ci(s: Seq<Seq<char>>)
    ensures
        distinct_keys(dedup_ci(s)),
        forall|key: Seq<char>| #[trigger] has_key(dedup_ci(s), key) == has_key(s, key),
    decreases s.len(),
{
    if s.len() == 0 {
        assert forall|key: Seq<char>| #[trigger] has_key(dedup_ci(s), key) == has_key(s, key) by {
            assert(dedup_ci(s) =~= Seq::<Seq<char>>::empty());
        }
    } else {
        let pre = s.drop_last();
        lemma_dedup_ci(pre);
        let d = dedup_ci(s);
        let dp = dedup_ci(pre);
        assert forall|key: Seq<char>| #[trigger] has_key(d, key) == has_key(s, key) by {
            if has_key(pre, fold_seq(s.last())) {
                // no new entry: keys of s are those of pre
                if has_key(s, key) {
                    let j = choose|j: int| 0 <= j < s.len() && fold_seq(#[trigger] s[j]) == key;
                    if j < s.len() - 1 {
                        assert(pre[j] == s[j]);
                        assert(has_key(pre, key));
                    } else {
                        assert(has_key(pre, key));
                    }
                }
                if has_key(pre, key) {
                    let j = choose|j: int| 0 <= j < pre.len() && fold_seq(#[trigger] pre[j]) == key;
                    assert(s[j] == pre[j]);
                    assert(has_key(s, key));
                }
            } else {
                if has_key(s, key) {
                    let j = choose|j: int| 0 <= j < s.len() && fold_seq(#[trigger] s[j]) == key;
                    if j < s.len() - 1 {
                        assert(pre[j] == s[j]);
                        assert(has_key(pre, key));
                        assert(has_key(dp, key));
                        let x = choose|x: int| 0 <= x < dp.len() && fold_seq(#[trigger] dp[x]) == key;
                        assert(d[x] == dp[x]);
                        assert(has_key(d, key));
                    } else {
                        assert(d.last() == s.last());
                        assert(has_key(d, key));
                    }
                }
                if has_key(d, key) {
                    let j = choose|j: int| 0 <= j < d.len() && fold_seq(#[trigger] d[j]) == key;
                    if j < d.len() - 1 {
                        assert(dp[j] == d[j]);
                        assert(has_key(dp, key));
                        assert(has_key(pre, key));
                        let x = choose|x: int| 0 <= x < pre.len() && fold_seq(#[trigger] pre[x]) == key;
                        assert(s[x] == pre[x]);
                        assert(has_key(s, key));
                    } else {
                        assert(d[j] == s.last());
                        assert(has_key(s, key));
                    }
                }
            }
        }
        assert forall|i: int, j: int|
            0 <= i < j < d.len() implies fold_seq(#[trigger] d[i]) != fold_seq(#[trigger] d[j]) by {
            if has_key(pre, fold_seq(s.last())) {
                assert(d =~= dp);
            } else {
                if j < d.len() - 1 {
                    assert(d[i] == dp[i] && d[j] == dp[j]);
                } else {
                    assert(d[j] == s.last());
                    assert(d[i] == dp[i]);
                    if fold_seq(d[i]) == fold_seq(s.last()) {
                        assert(has_key(dp, fold_seq(s.last())));
                        assert(has_key(pre, fold_seq(s.last())));
                    }
                }
            }
        }
    }
}

/// Lexicographic order on paths, by code point.
pub open spec fn str_le(a: Seq<char>, b: Seq<char>) -> bool
    decreases a.len(),
{
    if a.len() == 0 {
        true
    } else if b.len() == 0 {
        false
    } else if a[0] == b[0] {
        str_le(a.drop_first(), b.drop_first())
    } else {
        (a[0] as u32) < (b[0] as u32)
    }
}

/// The order is total.
pub proof fn lemma_str_le_total(a: Seq<char>, b: Seq<char>)
    ensures
        str_le(a, b) || str_le(b, a),
    decreases a.len(),
{
    if a.len() > 0 && b.len() > 0 && a[0] == b[0] {
        lemma_str_le_total(a.drop_first(), b.drop_first());
    } else if a.len() > 0 && b.len() > 0 {
        vstd::utf8::char_u32_cast(a[0], a[0] as u32);
        vstd::utf8::char_u32_cast(b[0], b[0] as u32);
    }
}

/// Every index pair is ordered.
pub open spec fn sorted(s: Seq<Seq<char>>) -> bool {
    forall|i: int, j: int| 0 <= i < j < s.len() ==> str_le(#[trigger] s[i], #[trigger] s[j])
}

/// `x` placed before the first entry it precedes.
pub open spec fn insert_sorted(x: Seq<char>, s: Seq<Seq<char>>) -> Seq<Seq<char>>
    decreases s.len(),
{
    if s.len() == 0 {
        seq![x]
    } else if str_le(x, s[0]) {
        seq![x] + s
    } else {
        seq![s[0]] + insert_sorted(x, s.drop_first())
    }
}

/// Insertion sort of the whole sequence.
pub open spec fn sort_paths(s: Seq<Seq<char>>) -> Seq<Seq<char>>
    decreases s.len(),
{
    if s.len() == 0 {
        Seq::empty()
    } else {
        insert_sorted(s.last(), sort_paths(s.drop_last()))
    }
}

/// Insertion keeps the sequence sorted and adds exactly `x`.
pub proof fn lemma_insert_sorted(x: Seq<char>, s: Seq<Seq<char>>)
    requires
        sorted(s),
    ensures
        sorted(insert_sorted(x, s)),
        insert_sorted(x, s).len() == s.len() + 1,
        forall|y: Seq<char>| #[trigger] insert_sorted(x, s).contains(y) == (y == x || s.contains(
            y,
        )),
    decreases s.len(),
{
    let r = insert_sorted(x, s);
    if s.len() == 0 {
        assert forall|y: Seq<char>| #[trigger] r.contains(y) == (y == x || s.contains(y)) by {
            assert(r[0] == x);
            if y == x {
                assert(r.contains(y));
            }
        }
    } else if str_le(x, s[0]) {
        assert forall|i: int, j: int|
            0 <= i < j < r.len() implies str_le(#[trigger] r[i], #[trigger] r[j]) by {
            if i == 0 {
                if j == 1 {
                    assert(r[j] == s[0]);
                } else {
                    assert(str_le(s[0], s[j - 1]));
                    lemma_str_le_trans(x, s[0], s[j - 1]);
                    assert(r[j] == s[j - 1]);
                }
            } else {
                assert(r[i] == s[i - 1] && r[j] == s[j - 1]);
            }
        }
        assert forall|y: Seq<char>| #[trigger] r.contains(y) == (y == x || s.contains(y)) by {
            if r.contains(y) {
                let i = choose|i: int| 0 <= i < r.len() && r[i] == y;
                if i > 0 {
                    assert(s[i - 1] == y);
                    assert(s.contains(y));
                }
            }
            if y == x {
                assert(r[0] == y);
                assert(r.contains(y));
            }
            if s.contains(y) {
                let i = choose|i: int| 0 <= i < s.len() && s[i] == y;
                assert(r[i + 1] == y);
                assert(r.contains(y));
            }
        }
    } else {
        let tail = s.drop_first();
        assert forall|i: int, j: int|
            0 <= i < j < tail.len() implies str_le(#[trigger] tail[i], #[trigger] tail[j]) by {
            assert(tail[i] == s[i + 1] && tail[j] == s[j + 1]);
        }
        lemma_insert_sorted(x, tail);
        let rt = insert_sorted(x, tail);
        lemma_str_le_total(x, s[0]);
        assert forall|i: int, j: int|
            0 <= i < j < r.len() implies str_le(#[trigger] r[i], #[trigger] r[j]) by {
            if i == 0 {
                assert(r[j] == rt[j - 1]);
                assert(rt.contains(rt[j - 1]));
                if rt[j - 1] == x {
                    assert(str_le(s[0], x));
                } else {
                    assert(tail.contains(rt[j - 1]));
                    let m = choose|m: int| 0 <= m < tail.len() && tail[m] == rt[j - 1];
                    assert(tail[m] == s[m + 1]);
                    assert(str_le(s[0], s[m + 1]));
                }
            } else {
                assert(r[i] == rt[i - 1] && r[j] == rt[j - 1]);
            }
        }
        assert forall|y: Seq<char>| #[trigger] r.contains(y) == (y == x || s.contains(y)) by {
            if r.contains(y) {
                let i = choose|i: int| 0 <= i < r.len() && r[i] == y;
                if i == 0 {
                    assert(s[0] == y);
                    assert(s.contains(y));
                } else {
                    assert(rt[i - 1] == y);
                    assert(rt.contains(y));
                    if y != x {
                        assert(tail.contains(y));
                        let m = choose|m: int| 0 <= m < tail.len() && tail[m] == y;
                        assert(s[m + 1] == y);
                        assert(s.contains(y));
                    }
                }
            }
            if y == x {
                assert(rt.contains(y));
                let m = choose|m: int| 0 <= m < rt.len() && rt[m] == y;
                assert(r[m + 1] == y);
                assert(r.contains(y));
            }
            if s.contains(y) {
                let i = choose|i: int| 0 <= i < s.len() && s[i] == y;
                if i == 0 {
                    assert(r[0] == y);
                    assert(r.contains(y));
                } else {
                    assert(tail[i - 1] == y);
                    assert(tail.contains(tail[i - 1]));
                    assert(rt.contains(y));
                    let m = choose|m: int| 0 <= m < rt.len() && rt[m] == y;
                    assert(r[m + 1] == y);
                    assert(r.contains(y));
                }
            }
        }
    }
}

/// The order is transitive.
pub proof fn lemma_str_le_trans(a: Seq<char>, b: Seq<char>, c: Seq<char>)
    requires
        str_le(a, b),
        str_le(b, c),
    ensures
        str_le(a, c),
    decreases a.len(),
{
    if a.len() > 0 && b.len() > 0 && c.len() > 0 && a[0] == b[0] && b[0] == c[0] {
        lemma_str_le_trans(a.drop_first(), b.drop_first(), c.drop_first());
    }
}

/// Sorting sorts, and neither adds nor loses entries.
pub proof fn lemma_sort_paths(s: Seq<Seq<char>>)
    ensures
        sorted(sort_paths(s)),
        sort_paths(s).len() == s.len(),
        forall|y: Seq<char>| #[trigger] sort_paths(s).contains(y) == s.contains(y),
    decreases s.len(),
{
    if s.len() == 0 {
        assert forall|y: Seq<char>| #[trigger] sort_paths(s).contains(y) == s.contains(y) by {
            assert(sort_paths(s) =~= Seq::<Seq<char>>::empty());
            if s.contains(y) {
                let i = choose|i: int| 0 <= i < s.len() && s[i] == y;
            }
        }
    } else {
        let pre = s.drop_last();
        lemma_sort_paths(pre);
        lemma_insert_sorted(s.last(), sort_paths(pre));
        assert forall|y: Seq<char>| #[trigger] sort_paths(s).contains(y) == s.contains(y) by {
            if sort_paths(s).contains(y) {
                if y == s.last() {
                    assert(s[s.len() - 1] == y);
                    assert(s.contains(y));
                } else {
                    assert(pre.contains(y));
                    let i = choose|i: int| 0 <= i < pre.len() && pre[i] == y;
                    assert(s[i] == y);
                    assert(s.contains(y));
                }
            }
            if s.contains(y) {
                let i = choose|i: int| 0 <= i < s.len() && s[i] == y;
                if i < s.len() - 1 {
                    assert(pre[i] == y);
                    assert(pre.contains(y));
                    assert(sort_paths(pre).contains(y));
                }
                assert(sort_paths(s).contains(y));
            }
        }
    }
}

/// Sorting keeps keys pairwise distinct.
pub proof fn lemma_sort_distinct(s: Seq<Seq<char>>)
    requires
        distinct_keys(s),
    ensures
        distinct_keys(sort_paths(s)),
    decreases s.len(),
{
    if s.len() > 0 {
        let pre = s.drop_last();
        assert forall|i: int, j: int|
            0 <= i < j < pre.len() implies fold_seq(#[trigger] pre[i]) != fold_seq(
            #[trigger] pre[j],
        ) by {
            assert(pre[i] == s[i] && pre[j] == s[j]);
        }
        lemma_sort_distinct(pre);
        lemma_sort_paths(pre);
        lemma_insert_sorted_distinct(s.last(), sort_paths(pre), s);
    }
}

/// Helper: inserting an entry whose key is absent keeps keys distinct.
proof fn lemma_insert_sorted_distinct(x: Seq<char>, t: Seq<Seq<char>>, s: Seq<Seq<char>>)
    requires
        s.len() > 0,
        x == s.last(),
        distinct_keys(s),
        distinct_keys(t),
        forall|y: Seq<char>| #[trigger] t.contains(y) == s.drop_last().contains(y),
    ensures
        distinct_keys(insert_sorted(x, t)),
{
    let r = insert_sorted(x, t);
    lemma_insert_sorted_shape(x, t);
    assert forall|i: int, j: int|
        0 <= i < j < r.len() implies fold_seq(#[trigger] r[i]) != fold_seq(#[trigger] r[j]) by {
        let p = choose|p: int| 0 <= p <= t.len() && r =~= t.take(p) + seq![x] + t.skip(p);
        let pre = s.drop_last();
        if fold_seq(r[i]) == fold_seq(r[j]) {
            // at most one of the two is the inserted entry
            if i == p || j == p {
                let o = if i == p { j } else { i };
                let oy = r[o];
                assert(t.contains(oy)) by {
                    if o < p {
                        assert(t[o] == r[o]);
                    } else {
                        assert(t[o - 1] == r[o]);
                    }
                }
                assert(pre.contains(oy));
                let m = choose|m: int| 0 <= m < pre.len() && pre[m] == oy;
                assert(s[m] == oy);
                assert(fold_seq(s[m]) != fold_seq(s.last()));
            } else {
                let a = if i < p { i } else { i - 1 };
                let b = if j < p { j } else { j - 1 };
                assert(t[a] == r[i] && t[b] == r[j]);
                assert(fold_seq(t[a]) != fold_seq(t[b]));
            }
        }
    }
}

/// Helper: an insertion is the input sequence with `x` placed at one position.
proof fn lemma_insert_sorted_shape(x: Seq<char>, t: Seq<Seq<char>>)
    ensures
        exists|p: int| 0 <= p <= t.len() && insert_sorted(x, t) =~= t.take(p) + seq![x] + t.skip(
            p,
        ),
    decreases t.len(),
{
    let r = insert_sorted(x, t);
    if t.len() == 0 {
        assert(r =~= t.take(0) + seq![x] + t.skip(0));
    } else if str_le(x, t[0]) {
        assert(r =~= t.take(0) + seq![x] + t.skip(0));
    } else {
        lemma_insert_sorted_shape(x, t.drop_first());
        let q = choose|q: int|
            0 <= q <= t.drop_first().len() && insert_sorted(x, t.drop_first()) =~= t.drop_first().take(
                q,
            ) + seq![x] + t.drop_first().skip(q);
        assert(r =~= t.take(q + 1) + seq![x] + t.skip(q + 1));
    }
}

/// Equality of two character vectors.
fn chars_eq(a: &Vec<char>, b: &Vec<char>) -> (r: bool)
    ensures
        r == (a@ == b@),
{
    if a.len() != b.len() {
        proof {
            assert(a@.len() != b@.len());
        }
        return false;
    }
    let mut i: usize = 0;
    while i < a.len()
        invariant
            i <= a@.len(),
            a@.len() == b@.len(),
            forall|k: int| 0 <= k < i ==> a@[k] == b@[k],
        decreases a@.len() - i,
    {
        if a[i] != b[i] {
            return false;
        }
        i = i + 1;
    }
    proof {
        assert(a@ =~= b@);
    }
    true
}

/// Whether some entry of `list` case-folds to the (already folded) `key`.
fn has_key_exec(list: &Vec<String>, key: &Vec<char>) -> (r: bool)
    ensures
        r == has_key(list.deep_view(), key@),
{
    let ghost d = list.deep_view();
    let mut i: usize = 0;
    while i < list.len()
        invariant
            i <= list@.len(),
            d == list.deep_view(),
            forall|j: int| 0 <= j < i ==> fold_seq(#[trigger] d[j]) != key@,
        decreases list@.len() - i,
    {
        let cs = str_chars(list[i].as_str());
        let f = fold_chars(&cs);
        if chars_eq(&f, key) {
            proof {
                assert(d[i as int] == list@[i as int]@);
                assert(fold_seq(d[i as int]) == key@);
            }
            return true;
        }
        i = i + 1;
    }
    proof {
        if has_key(d, key@) {
            let j = choose|j: int| 0 <= j < d.len() && fold_seq(#[trigger] d[j]) == key@;
        }
    }
    false
}

/// Executable lexicographic comparison.
fn str_le_exec(a: &Vec<char>, b: &Vec<char>) -> (r: bool)
    ensures
        r == str_le(a@, b@),
{
    let mut i: usize = 0;
    proof {
        assert(a@.skip(0) =~= a@);
        assert(b@.skip(0) =~= b@);
    }
    while i < a.len() && i < b.len() && a[i] == b[i]
        invariant
            i <= a@.len(),
            i <= b@.len(),
            forall|k: int| 0 <= k < i ==> a@[k] == b@[k],
            str_le(a@, b@) == str_le(a@.skip(i as int), b@.skip(i as int)),
        decreases a@.len() - i,
    {
        proof {
            let sa = a@.skip(i as int);
            let sb = b@.skip(i as int);
            assert(sa[0] == a@[i as int] && sb[0] == b@[i as int]);
            assert(sa.drop_first() =~= a@.skip(i + 1 as int));
            assert(sb.drop_first() =~= b@.skip(i + 1 as int));
        }
        i = i + 1;
    }
    proof {
        let sa = a@.skip(i as int);
        let sb = b@.skip(i as int);
        if i < a@.len() && i < b@.len() {
            assert(sa[0] == a@[i as int] && sb[0] == b@[i as int]);
        }
        if i == a@.len() {
            assert(sa.len() == 0);
        } else if i == b@.len() {
            assert(sb.len() == 0 && sa.len() > 0);
        }
    }
    if i == a.len() {
        true
    } else if i == b.len() {
        false
    } else {
        (a[i] as u32) < (b[i] as u32)
    }
}

/// Inserts `entry` into a vector sorted lexicographically, keeping it
/// sorted at the spot the order dictates.
fn insert_sorted_exec(list: &mut Vec<String>, entry: String)
    ensures
        final (list).deep_view() == insert_sorted(entry@, old(list).deep_view()),
{
    let ghost t = old(list).deep_view();
    let entry_chars = str_chars(entry.as_str());
    let mut p: usize = 0;
    let mut stop = false;
    while !stop && p < list.len()
        invariant
            p <= list@.len(),
            t == list.deep_view(),
            entry_chars@ == entry@,
            forall|k: int| 0 <= k < p ==> !str_le(entry@, #[trigger] t[k]),
            stop ==> p < list@.len() && str_le(entry@, t[p as int]),
        decreases list@.len() - p + (if stop { 0int } else { 1int }),
    {
        let cs = str_chars(list[p].as_str());
        if str_le_exec(&entry_chars, &cs) {
            proof {
                assert(t[p as int] == list@[p as int]@);
            }
            stop = true;
        } else {
            proof {
                assert(t[p as int] == list@[p as int]@);
            }
            p = p + 1;
        }
    }
    let ghost pp = p as int;
    list.insert(p, entry);
    proof {
        lemma_insert_sorted_at(entry@, t, pp);
        assert(list.deep_view() =~= t.take(pp) + seq![entry@] + t.skip(pp));
    }
}

/// Helper: the inserted entry lands at the first position it precedes.
proof fn lemma_insert_sorted_at(x: Seq<char>, s: Seq<Seq<char>>, p: int)
    requires
        0 <= p <= s.len(),
        forall|k: int| 0 <= k < p ==> !str_le(x, #[trigger] s[k]),
        p < s.len() ==> str_le(x, s[p]),
    ensures
        insert_sorted(x, s) == s.take(p) + seq![x] + s.skip(p),
    decreases s.len(),
{
    if s.len() == 0 {
        assert(insert_sorted(x, s) =~= s.take(0) + seq![x] + s.skip(0));
    } else if p == 0 {
        assert(str_le(x, s[0]));
        assert(insert_sorted(x, s) =~= s.take(0) + seq![x] + s.skip(0));
    } else {
        assert(!str_le(x, s[0]));
        let tail = s.drop_first();
        assert forall|k: int| 0 <= k < p - 1 implies !str_le(x, #[trigger] tail[k]) by {
            assert(tail[k] == s[k + 1]);
        }
        if p - 1 < tail.len() {
            assert(tail[p - 1] == s[p]);
        }
        lemma_insert_sorted_at(x, tail, p - 1);
        assert(insert_sorted(x, s) == seq![s[0]] + insert_sorted(x, tail));
        assert(seq![s[0]] + (tail.take(p - 1) + seq![x] + tail.skip(p - 1)) =~= s.take(p)
            + seq![x] + s.skip(p));
    }
}

/// Turns the raw candidate values harvested from a document into the
/// final asset list: normalize each, keep those with a recognized asset
/// extension, deduplicate by case-folded key keeping the first
/// occurrence, and sort lexicographically.
pub fn collect_assets(cands: &Vec<String>) -> (r: Vec<String>)
    ensures
        r.deep_view() == sort_paths(dedup_ci(normalize_kept(cands.deep_view()))),
        sorted(r.deep_view()),
        distinct_keys(r.deep_view()),
{
    let ghost cd = cands.deep_view();
    // normalize and filter by extension
    let mut kept: Vec<String> = Vec::new();
    let mut i: usize = 0;
    proof {
        assert(cd.take(0) =~= Seq::<Seq<char>>::empty());
        assert(kept.deep_view() =~= normalize_kept(cd.take(0)));
    }
    while i < cands.len()
        invariant
            i <= cands@.len(),
            cd == cands.deep_view(),
            kept.deep_view() == normalize_kept(cd.take(i as int)),
        decreases cands@.len() - i,
    {
        let cs = str_chars(cands[i].as_str());
        let n = normalize_chars(&cs);
        let ghost prev = kept.deep_view();
        proof {
            assert(cd.take(i + 1 as int).drop_last() =~= cd.take(i as int));
            assert(cd.take(i + 1 as int).last() == cd[i as int]);
            assert(cs@ == cd[i as int]);
        }
        if has_asset_ext_exec(&n) {
            let ns = chars_to_string(&n);
            kept.push(ns);
            proof {
                assert(kept.deep_view() =~= prev.push(normalize_spec(cd[i as int])));
            }
        }
        i = i + 1;
    }
    proof {
        assert(cd.take(cd.len() as int) =~= cd);
    }
    // deduplicate, first occurrence winning
    let ghost kd = kept.deep_view();
    let mut uniq: Vec<String> = Vec::new();
    let mut j: usize = 0;
    proof {
        assert(kd.take(0) =~= Seq::<Seq<char>>::empty());
        assert(uniq.deep_view() =~= dedup_ci(kd.take(0)));
    }
    while j < kept.len()
        invariant
            j <= kept@.len(),
            kd == kept.deep_view(),
            uniq.deep_view() == dedup_ci(kd.take(j as int)),
        decreases kept@.len() - j,
    {
        let cs = str_chars(kept[j].as_str());
        let f = fold_chars(&cs);
        let ghost prev = uniq.deep_view();
        proof {
            assert(kd.take(j + 1 as int).drop_last() =~= kd.take(j as int));
            assert(kd.take(j + 1 as int).last() == kd[j as int]);
            assert(cs@ == kd[j as int]);
            lemma_dedup_ci(kd.take(j as int));
        }
        if !has_key_exec(&uniq, &f) {
            let entry = chars_to_string(&cs);
            uniq.push(entry);
            proof {
                assert(kept@[j as int]@ == kd[j as int]);
                assert(uniq.deep_view() =~= prev.push(kd[j as int]));
            }
        }
        j = j + 1;
    }
    proof {
        assert(kd.take(kd.len() as int) =~= kd);
    }
    // sort lexicographically
    let ghost ud = uniq.deep_view();
    let mut out: Vec<String> = Vec::new();
    let mut k: usize = 0;
    proof {
        assert(ud.take(0) =~= Seq::<Seq<char>>::empty());
        assert(out.deep_view() =~= sort_paths(ud.take(0)));
    }
    while k < uniq.len()
        invariant
            k <= uniq@.len(),
            ud == uniq.deep_view(),
            out.deep_view() == sort_paths(ud.take(k as int)),
        decreases uniq@.len() - k,
    {
        let entry = {
            let cs = str_chars(uniq[k].as_str());
            chars_to_string(&cs)
        };
        proof {
            assert(ud.take(k + 1 as int).drop_last() =~= ud.take(k as int));
            assert(ud.take(k + 1 as int).last() == ud[k as int]);
            assert(entry@ == ud[k as int]);
        }
        insert_sorted_exec(&mut out, entry);
        k = k + 1;
    }
    proof {
        assert(ud.take(ud.len() as int) =~= ud);
        lemma_dedup_ci(kd);
        lemma_sort_paths(ud);
        lemma_sort_distinct(ud);
    }
    out
}

/// Entries whose case-folded text contains the case-folded term, in
/// their original order.
pub open spec fn filter_ci(s: Seq<Seq<char>>, term: Seq<char>) -> Seq<Seq<char>>
    decreases s.len(),
{
    if s.len() == 0 {
        Seq::empty()
    } else {
        let rest = filter_ci(s.drop_last(), term);
        if crate::search::has_match(fold_seq(s.last()), fold_seq(term)) {
            rest.push(s.last())
        } else {
            rest
        }
    }
}

/// Filtering keeps only entries of the input, and preserves sortedness
/// and key distinctness.
pub proof fn lemma_filter_ci(s: Seq<Seq<char>>, term: Seq<char>)
    ensures
        forall|y: Seq<char>| #[trigger] filter_ci(s, term).contains(y) ==> s.contains(y),
        sorted(s) ==> sorted(filter_ci(s, term)),
        distinct_keys(s) ==> distinct_keys(filter_ci(s, term)),
    decreases s.len(),
{
    if s.len() > 0 {
        let pre = s.drop_last();
        lemma_filter_ci(pre, term);
        let f = filter_ci(s, term);
        let fp = filter_ci(pre, term);
        assert forall|y: Seq<char>| #[trigger] f.contains(y) implies s.contains(y) by {
            let i = choose|i: int| 0 <= i < f.len() && f[i] == y;
            if crate::search::has_match(fold_seq(s.last()), fold_seq(term)) && i == f.len() - 1 {
                assert(s[s.len() - 1] == y);
            } else {
                assert(fp[i] == y);
                assert(fp.contains(y));
                assert(pre.contains(y));
                let m = choose|m: int| 0 <= m < pre.len() && pre[m] == y;
                assert(s[m] == y);
            }
        }
        if sorted(s) {
            assert forall|i: int, j: int| 0 <= i < j < pre.len() implies str_le(
                #[trigger] pre[i],
                #[trigger] pre[j],
            ) by {
                assert(pre[i] == s[i] && pre[j] == s[j]);
            }
            assert forall|i: int, j: int| 0 <= i < j < f.len() implies str_le(
                #[trigger] f[i],
                #[trigger] f[j],
            ) by {
                if crate::search::has_match(fold_seq(s.last()), fold_seq(term)) && j == f.len()
                    - 1 {
                    assert(f[i] == fp[i]);
                    assert(fp.contains(fp[i]));
                    assert(pre.contains(f[i]));
                    let m = choose|m: int| 0 <= m < pre.len() && pre[m] == f[i];
                    assert(s[m] == f[i]);
                    assert(str_le(s[m], s.last()));
                } else {
                    assert(f[i] == fp[i] && f[j] == fp[j]);
                }
            }
        }
        if distinct_keys(s) {
            assert forall|i: int, j: int| 0 <= i < j < pre.len() implies fold_seq(
                #[trigger] pre[i],
            ) != fold_seq(#[trigger] pre[j]) by {
                assert(pre[i] == s[i] && pre[j] == s[j]);
            }
            assert forall|i: int, j: int| 0 <= i < j < f.len() implies fold_seq(#[trigger] f[i])
                != fold_seq(#[trigger] f[j]) by {
                if crate::search::has_match(fold_seq(s.last()), fold_seq(term)) && j == f.len()
                    - 1 {
                    assert(f[i] == fp[i]);
                    assert(fp.contains(fp[i]));
                    assert(pre.contains(f[i]));
                    let m = choose|m: int| 0 <= m < pre.len() && pre[m] == f[i];
                    assert(s[m] == f[i]);
                    assert(fold_seq(s[m]) != fold_seq(s.last()));
                } else {
                    assert(f[i] == fp[i] && f[j] == fp[j]);
                }
            }
        }
    }
}

/// Keeps the assets whose case-folded path contains the case-folded
/// filter term.
pub fn filter_assets(list: &Vec<String>, term: &str) -> (r: Vec<String>)
    ensures
        r.deep_view() == filter_ci(list.deep_view(), term@),
{
    let term_chars = str_chars(term);
    let pat = fold_chars(&term_chars);
    let ghost d = list.deep_view();
    let mut out: Vec<String> = Vec::new();
    let mut i: usize = 0;
    proof {
        assert(d.take(0) =~= Seq::<Seq<char>>::empty());
        assert(out.deep_view() =~= filter_ci(d.take(0), term@));
    }
    while i < list.len()
        invariant
            i <= list@.len(),
            d == list.deep_view(),
            pat@ == fold_seq(term@),
            out.deep_view() == filter_ci(d.take(i as int), term@),
        decreases list@.len() - i,
    {
        let cs = str_chars(list[i].as_str());
        let f = fold_chars(&cs);
        let ghost prev = out.deep_view();
        proof {
            assert(d.take(i + 1 as int).drop_last() =~= d.take(i as int));
            assert(d.take(i + 1 as int).last() == d[i as int]);
            assert(cs@ == d[i as int]);
        }
        if crate::search::find_first(&f, &pat).is_some() {
            let entry = chars_to_string(&cs);
            out.push(entry);
            proof {
                assert(crate::search::has_match(fold_seq(d[i as int]), fold_seq(term@)));
                assert(out.deep_view() =~= prev.push(d[i as int]));
            }
        } else {
            proof {
                assert(!crate::search::has_match(fold_seq(d[i as int]), fold_seq(term@)));
            }
        }
        i = i + 1;
    }
    proof {
        assert(d.take(d.len() as int) =~= d);
    }
    out
}

} // verus!
