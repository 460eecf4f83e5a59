//! Single-pass XML event scanner used by the asset extractor: it walks
//! the document text once, recognizing start tags with their attributes,
//! self-closing tags, end tags, comments and other markup, and harvests
//! the raw values of path-bearing attributes and of text directly inside
//! path-bearing elements, in document order.  On malformed markup the
//! scan stops and whatever was harvested so far stands: a best-effort
//! policy, not a failure.
use vstd::prelude::*;
use crate::assets::{is_ws, is_ws_exec, lemma_skip_ws_from, skip_ws_from};
use crate::chars::{chars_to_string, find_char, find_char_exec, lemma_find_char, str_chars, vec_subrange};
use crate::fold::{fold_chars, fold_seq};

verus! {

/// A character that ends a tag or attribute name.
pub open spec fn name_stop(c: char) -> bool {
    is_ws(c) || c == '/' || c == '>' || c == '='
}

/// First position at or after `i` that ends a name.
pub open spec fn name_end(s: Seq<char>, i: int) -> int
    decreases s.len() - i when 0 <= i <= s.len()
{
    if i >= s.len() {
        s.len() as int
    } else if name_stop(s[i]) {
        i
    } else {
        name_end(s, i + 1)
    }
}

/// `name_end` really is the first name-ending position.
pub proof fn lemma_name_end(s: Seq<char>, i: int)
    requires
        0 <= i <= s.len(),
    ensures
        i <= name_end(s, i) <= s.len(),
        forall|k: int| i <= k < name_end(s, i) ==> !name_stop(s[k]),
        name_end(s, i) < s.len() ==> name_stop(s[name_end(s, i)]),
    decreases s.len() - i,
{
    if i < s.len() && !name_stop(s[i]) {
        lemma_name_end(s, i + 1);
    }
}

/// Executable scan for the end of a name.
fn name_end_exec(v: &Vec<char>, i: usize) -> (r: usize)
    requires
        i <= v@.len(),
    ensures
        r == name_end(v@, i as int),
{
    proof {
        lemma_name_end(v@, i as int);
    }
    let mut j: usize = i;
    while j < v.len() && !name_stop_exec(v[j])
        invariant
            i <= j <= v@.len(),
            forall|k: int| i <= k < j ==> !name_stop(v@[k]),
            i <= name_end(v@, i as int) <= v@.len(),
            forall|k: int| i <= k < name_end(v@, i as int) ==> !name_stop(v@[k]),
            name_end(v@, i as int) < v@.len() ==> name_stop(v@[name_end(v@, i as int)]),
        decreases v@.len() - j,
    {
        j = j + 1;
    }
    proof {
        let f = name_end(v@, i as int);
        if f < j {
            assert(!name_stop(v@[f]));
        }
        if j < f {
            assert(!name_stop(v@[j as int]));
        }
    }
    j
}

/// Executable name-stop test.
fn name_stop_exec(c: char) -> (r: bool)
    ensures
        r == name_stop(c),
{
    is_ws_exec(c) || c == '/' || c == '>' || c == '='
}

/// First position at or after `i` where the comment closer `-->` begins;
/// `s.len()` when there is none.
pub open spec fn comment_close(s: Seq<char>, i: int) -> int
    decreases s.len() - i when 0 <= i <= s.len()
{
    if i + 3 > s.len() {
        s.len() as int
    } else if s[i] == '-' && s[i + 1] == '-' && s[i + 2] == '>' {
        i
    } else {
        comment_close(s, i + 1)
    }
}

/// `comment_close` really is the first comment closer.
pub proof fn lemma_comment_close(s: Seq<char>, i: int)
    requires
        0 <= i <= s.len(),
    ensures
        i <= comment_close(s, i) <= s.len(),
        comment_close(s, i) < s.len() ==> comment_close(s, i) + 3 <= s.len() && s[comment_close(
            s,
            i,
        )] == '-' && s[comment_close(s, i) + 1] == '-' && s[comment_close(s, i) + 2] == '>',
        forall|k: int|
            i <= k < comment_close(s, i) && k + 3 <= s.len() ==> !(#[trigger] s[k] == '-' && s[k
                + 1] == '-' && s[k + 2] == '>'),
    decreases s.len() - i,
{
    if i + 3 <= s.len() && !(s[i] == '-' && s[i + 1] == '-' && s[i + 2] == '>') {
        lemma_comment_close(s, i + 1);
    }
}

/// Executable scan for the comment closer.
fn comment_close_exec(v: &Vec<char>, i: usize) -> (r: usize)
    requires
        i <= v@.len(),
    ensures
        r == comment_close(v@, i as int),
{
    proof {
        lemma_comment_close(v@, i as int);
    }
    let n = v.len();
    let mut j: usize = i;
    while n - j >= 3 && !(v[j] == '-' && v[j + 1] == '-' && v[j + 2] == '>')
        invariant
            i <= j <= n,
            n == v@.len(),
            forall|k: int|
                i <= k < j && k + 3 <= v@.len() ==> !(#[trigger] v@[k] == '-' && v@[k + 1] == '-'
                    && v@[k + 2] == '>'),
            i <= comment_close(v@, i as int) <= v@.len(),
            comment_close(v@, i as int) < v@.len() ==> comment_close(v@, i as int) + 3 <= v@.len()
                && v@[comment_close(v@, i as int)] == '-' && v@[comment_close(v@, i as int) + 1]
                == '-' && v@[comment_close(v@, i as int) + 2] == '>',
            forall|k: int|
                i <= k < comment_close(v@, i as int) && k + 3 <= v@.len() ==> !(#[trigger] v@[k]
                    == '-' && v@[k + 1] == '-' && v@[k + 2] == '>'),
        decreases n - j,
    {
        j = j + 1;
    }
    proof {
        let f = comment_close(v@, i as int);
        if n - j >= 3 {
            // the loop stopped on a closer
            if f != j {
                if f < j {
                } else {
                    assert(!(v@[j as int] == '-' && v@[j as int + 1] == '-' && v@[j as int + 2]
                        == '>'));
                }
            }
        } else {
            // no closer fits from j on
            if f < v@.len() {
                assert(f + 3 <= v@.len());
                assert(f < j);
            }
        }
    }
    if n - j >= 3 {
        j
    } else {
        n
    }
}

/// The recognized path-bearing names, compared case-folded.
pub open spec fn is_path_name(name: Seq<char>) -> bool {
    let f = fold_seq(name);
    ||| (f.len() == 12 && f[0] == 'a' && f[1] == 'b' && f[2] == 's' && f[3] == 'o' && f[4] == 'l' && f[5] == 'u' && f[6] == 't' && f[7] == 'e' && f[8] == 'p' && f[9] == 'a' && f[10] == 't' && f[11] == 'h')
    ||| (f.len() == 8 && f[0] == 'f' && f[1] == 'i' && f[2] == 'l' && f[3] == 'e' && f[4] == 'p' && f[5] == 'a' && f[6] == 't' && f[7] == 'h')
    ||| (f.len() == 4 && f[0] == 'p' && f[1] == 'a' && f[2] == 't' && f[3] == 'h')
    ||| (f.len() == 12 && f[0] == 'r' && f[1] == 'e' && f[2] == 'l' && f[3] == 'a' && f[4] == 't' && f[5] == 'i' && f[6] == 'v' && f[7] == 'e' && f[8] == 'p' && f[9] == 'a' && f[10] == 't' && f[11] == 'h')
    ||| (f.len() == 7 && f[0] == 'r' && f[1] == 'e' && f[2] == 'l' && f[3] == 'p' && f[4] == 'a' && f[5] == 't' && f[6] == 'h')
}

/// Executable path-bearing name test.
fn is_path_name_exec(name: &Vec<char>) -> (r: bool)
    ensures
        r == is_path_name(name@),
{
    let v = fold_chars(name);
    (v.len() == 12 && v[0] == 'a' && v[1] == 'b' && v[2] == 's' && v[3] == 'o' && v[4] == 'l' && v[5] == 'u' && v[6] == 't' && v[7] == 'e' && v[8] == 'p' && v[9] == 'a' && v[10] == 't' && v[11] == 'h')
    || (v.len() == 8 && v[0] == 'f' && v[1] == 'i' && v[2] == 'l' && v[3] == 'e' && v[4] == 'p' && v[5] == 'a' && v[6] == 't' && v[7] == 'h')
    || (v.len() == 4 && v[0] == 'p' && v[1] == 'a' && v[2] == 't' && v[3] == 'h')
    || (v.len() == 12 && v[0] == 'r' && v[1] == 'e' && v[2] == 'l' && v[3] == 'a' && v[4] == 't' && v[5] == 'i' && v[6] == 'v' && v[7] == 'e' && v[8] == 'p' && v[9] == 'a' && v[10] == 't' && v[11] == 'h')
    || (v.len() == 7 && v[0] == 'r' && v[1] == 'e' && v[2] == 'l' && v[3] == 'p' && v[4] == 'a' && v[5] == 't' && v[6] == 'h')
}

/// Outcome of scanning the attribute list of one tag.
pub struct AttrScan {
    /// Position just after the closing `>`.
    pub next: int,
    /// Raw values of path-bearing attributes, in order.
    pub vals: Seq<Seq<char>>,
    /// The tag was self-closing.
    pub empty_tag: bool,
    /// The markup was malformed and the scan stops here.
    pub stop: bool,
}

/// Scans the attribute list of a tag, starting right after the tag name.
pub open spec fn scan_attrs(s: Seq<char>, i: int) -> AttrScan
    decreases s.len() - i when 0 <= i <= s.len()
{
    let j = skip_ws_from(s, i);
    if j >= s.len() {
        AttrScan { next: s.len() as int, vals: Seq::empty(), empty_tag: false, stop: true }
    } else if s[j] == '>' {
        AttrScan { next: j + 1, vals: Seq::empty(), empty_tag: false, stop: false }
    } else if s[j] == '/' {
        if j + 1 < s.len() && s[j + 1] == '>' {
            AttrScan { next: j + 2, vals: Seq::empty(), empty_tag: true, stop: false }
        } else {
            AttrScan { next: s.len() as int, vals: Seq::empty(), empty_tag: false, stop: true }
        }
    } else {
        let ne = name_end(s, j);
        let k = skip_ws_from(s, ne);
        if k >= s.len() || s[k] != '=' {
            AttrScan { next: s.len() as int, vals: Seq::empty(), empty_tag: false, stop: true }
        } else {
            let q = skip_ws_from(s, k + 1);
            if q >= s.len() || (s[q] != '"' && s[q] != '\'') {
                AttrScan { next: s.len() as int, vals: Seq::empty(), empty_tag: false, stop: true }
            } else {
                let vend = find_char(s, q + 1, s[q]);
                if vend >= s.len() {
                    AttrScan {
                        next: s.len() as int,
                        vals: Seq::empty(),
                        empty_tag: false,
                        stop: true,
                    }
                } else {
                    proof {
                        lemma_skip_ws_from(s, i);
                        lemma_name_end(s, j);
                        lemma_skip_ws_from(s, ne);
                        lemma_skip_ws_from(s, k + 1);
                        lemma_find_char(s, q + 1, s[q]);
                    }
                    let rest = scan_attrs(s, vend + 1);
                    AttrScan {
                        next: rest.next,
                        vals: if is_path_name(s.subrange(j, ne)) {
                            seq![s.subrange(q + 1, vend)] + rest.vals
                        } else {
                            rest.vals
                        },
                        empty_tag: rest.empty_tag,
                        stop: rest.stop,
                    }
                }
            }
        }
    }
}

/// A finished attribute scan lands strictly past where it started.
pub proof fn lemma_scan_attrs_bounds(s: Seq<char>, i: int)
    requires
        0 <= i <= s.len(),
    ensures
        !scan_attrs(s, i).stop ==> i < scan_attrs(s, i).next <= s.len(),
    decreases s.len() - i,
{
    lemma_skip_ws_from(s, i);
    let j = skip_ws_from(s, i);
    if j < s.len() && s[j] != '>' && !(s[j] == '/') {
        lemma_name_end(s, j);
        let ne = name_end(s, j);
        lemma_skip_ws_from(s, ne);
        let k = skip_ws_from(s, ne);
        if !(k >= s.len() || s[k] != '=') {
            lemma_skip_ws_from(s, k + 1);
            let q = skip_ws_from(s, k + 1);
            if !(q >= s.len() || (s[q] != '"' && s[q] != '\'')) {
                lemma_find_char(s, q + 1, s[q]);
                let vend = find_char(s, q + 1, s[q]);
                if vend < s.len() {
                    lemma_scan_attrs_bounds(s, vend + 1);
                }
            }
        }
    }
}

/// Outcome of scanning one event.
pub struct StepScan {
    /// Position of the next event.
    pub next: int,
    /// Raw candidate values this event contributes, in order.
    pub vals: Seq<Seq<char>>,
    /// Whether text encountered next is inside a path-bearing element.
    pub want: bool,
    /// The markup was malformed and the scan stops here.
    pub stop: bool,
}

/// Scans one event at `pos`: a text run, an end tag, a comment or other
/// angle-bracketed markup, or a start tag (possibly self-closing) with
/// its attributes.
pub open spec fn scan_step(s: Seq<char>, pos: int, want: bool) -> StepScan
    recommends
        0 <= pos < s.len(),
{
    if s[pos] != '<' {
        let j = find_char(s, pos, '<');
        StepScan {
            next: j,
            vals: if want {
                seq![s.subrange(pos, j)]
            } else {
                Seq::empty()
            },
            want: want,
            stop: false,
        }
    } else if pos + 1 >= s.len() {
        StepScan { next: s.len() as int, vals: Seq::empty(), want: want, stop: true }
    } else if s[pos + 1] == '/' {
        let j = find_char(s, pos, '>');
        if j >= s.len() {
            StepScan { next: s.len() as int, vals: Seq::empty(), want: want, stop: true }
        } else {
            StepScan { next: j + 1, vals: Seq::empty(), want: false, stop: false }
        }
    } else if s[pos + 1] == '!' || s[pos + 1] == '?' {
        if pos + 3 < s.len() && s[pos + 1] == '!' && s[pos + 2] == '-' && s[pos + 3] == '-' {
            let j = comment_close(s, pos + 4);
            if j >= s.len() {
                StepScan { next: s.len() as int, vals: Seq::empty(), want: want, stop: true }
            } else {
                StepScan { next: j + 3, vals: Seq::empty(), want: want, stop: false }
            }
        } else {
            let j = find_char(s, pos, '>');
            if j >= s.len() {
                StepScan { next: s.len() as int, vals: Seq::empty(), want: want, stop: true }
            } else {
                StepScan { next: j + 1, vals: Seq::empty(), want: want, stop: false }
            }
        }
    } else {
        let ne = name_end(s, pos + 1);
        let ar = scan_attrs(s, ne);
        if ar.stop {
            StepScan { next: s.len() as int, vals: Seq::empty(), want: want, stop: true }
        } else {
            StepScan {
                next: ar.next,
                vals: ar.vals,
                want: if ar.empty_tag {
                    false
                } else if is_path_name(s.subrange(pos + 1, ne)) {
                    true
                } else {
                    want
                },
                stop: false,
            }
        }
    }
}

/// A finished event lands strictly past where it started.
pub proof fn lemma_scan_step_bounds(s: Seq<char>, pos: int, want: bool)
    requires
        0 <= pos < s.len(),
    ensures
        !scan_step(s, pos, want).stop ==> pos < scan_step(s, pos, want).next <= s.len(),
{
    lemma_find_char(s, pos, '<');
    lemma_find_char(s, pos, '>');
    if s[pos] == '<' && pos + 1 < s.len() {
        if s[pos + 1] == '!' || s[pos + 1] == '?' {
            if pos + 4 <= s.len() {
                lemma_comment_close(s, pos + 4);
            }
        } else if s[pos + 1] != '/' {
            lemma_name_end(s, pos + 1);
            lemma_scan_attrs_bounds(s, name_end(s, pos + 1));
        }
    }
}

/// All raw candidate values from `pos` to the end of the document (or to
/// the first malformed construct).
pub open spec fn scan_candidates(s: Seq<char>, pos: int, want: bool) -> Seq<Seq<char>>
    decreases s.len() - pos when 0 <= pos <= s.len()
{
    if pos >= s.len() {
        Seq::empty()
    } else {
        let st = scan_step(s, pos, want);
        if st.stop {
            Seq::empty()
        } else {
            proof {
                lemma_scan_step_bounds(s, pos, want);
            }
            st.vals + scan_candidates(s, st.next, st.want)
        }
    }
}

/// The raw path candidates of a whole document.
pub open spec fn candidates(s: Seq<char>) -> Seq<Seq<char>> {
    scan_candidates(s, 0, false)
}

/// An empty list of harvested values.
fn empty_strings() -> (r: Vec<String>)
    ensures
        r.deep_view() == Seq::<Seq<char>>::empty(),
{
    let v: Vec<String> = Vec::new();
    proof {
        assert(v.deep_view() =~= Seq::<Seq<char>>::empty());
    }
    v
}

/// Executable whitespace skip.
fn skip_ws_exec(v: &Vec<char>, i: usize) -> (r: usize)
    requires
        i <= v@.len(),
    ensures
        r == skip_ws_from(v@, i as int),
{
    proof {
        lemma_skip_ws_from(v@, i as int);
    }
    let mut j: usize = i;
    while j < v.len() && is_ws_exec(v[j])
        invariant
            i <= j <= v@.len(),
            forall|k: int| i <= k < j ==> is_ws(v@[k]),
            i <= skip_ws_from(v@, i as int) <= v@.len(),
            forall|k: int| i <= k < skip_ws_from(v@, i as int) ==> is_ws(v@[k]),
            skip_ws_from(v@, i as int) < v@.len() ==> !is_ws(v@[skip_ws_from(v@, i as int)]),
        decreases v@.len() - j,
    {
        j = j + 1;
    }
    proof {
        let f = skip_ws_from(v@, i as int);
        if f < j {
            assert(is_ws(v@[f]));
        }
        if j < f {
            assert(is_ws(v@[j as int]));
        }
    }
    j
}

/// Executable attribute scan, mirroring `scan_attrs`.
fn scan_attrs_exec(v: &Vec<char>, i: usize) -> (r: (Vec<String>, usize, bool, bool))
    requires
        i <= v@.len(),
    ensures
        ({
            let a = scan_attrs(v@, i as int);
            r.3 == !a.stop && r.1 == a.next && r.2 == a.empty_tag && r.0.deep_view() == a.vals
        }),
    decreases v@.len() - i,
{
    proof {
        lemma_skip_ws_from(v@, i as int);
    }
    let n = v.len();
    let j = skip_ws_exec(v, i);
    if j >= n {
        (empty_strings(), n, false, false)
    } else if v[j] == '>' {
        (empty_strings(), j + 1, false, true)
    } else if v[j] == '/' {
        if j + 1 < n && v[j + 1] == '>' {
            (empty_strings(), j + 2, true, true)
        } else {
            (empty_strings(), n, false, false)
        }
    } else {
        let ne = name_end_exec(v, j);
        proof {
            lemma_name_end(v@, j as int);
            lemma_skip_ws_from(v@, ne as int);
        }
        let k = skip_ws_exec(v, ne);
        if k >= n || v[k] != '=' {
            (empty_strings(), n, false, false)
        } else {
            proof {
                lemma_skip_ws_from(v@, k + 1 as int);
            }
            let q = skip_ws_exec(v, k + 1);
            if q >= n || (v[q] != '"' && v[q] != '\'') {
                (empty_strings(), n, false, false)
            } else {
                proof {
                    lemma_find_char(v@, q + 1 as int, v@[q as int]);
                }
                let vend = find_char_exec(v, q + 1, v[q]);
                if vend >= n {
                    (empty_strings(), n, false, false)
                } else {
                    let rest = scan_attrs_exec(v, vend + 1);
                    let name = vec_subrange(v, j, ne);
                    if is_path_name_exec(&name) {
                        let val = vec_subrange(v, q + 1, vend);
                        let vs = chars_to_string(&val);
                        let mut out: Vec<String> = Vec::new();
                        out.push(vs);
                        let mut rv = rest.0;
                        out.append(&mut rv);
                        proof {
                            assert(out.deep_view() =~= seq![
                                v@.subrange(q + 1 as int, vend as int),
                            ] + scan_attrs(v@, vend + 1 as int).vals);
                        }
                        (out, rest.1, rest.2, rest.3)
                    } else {
                        (rest.0, rest.1, rest.2, rest.3)
                    }
                }
            }
        }
    }
}

/// Executable scan of one event, mirroring `scan_step`.
fn scan_step_exec(v: &Vec<char>, pos: usize, want: bool) -> (r: (Vec<String>, usize, bool, bool))
    requires
        pos < v@.len(),
    ensures
        ({
            let st = scan_step(v@, pos as int, want);
            r.3 == !st.stop && r.1 == st.next && r.2 == st.want && r.0.deep_view() == st.vals
        }),
{
    let n = v.len();
    if v[pos] != '<' {
        proof {
            lemma_find_char(v@, pos as int, '<');
        }
        let j = find_char_exec(v, pos, '<');
        if want {
            let run = vec_subrange(v, pos, j);
            let rs = chars_to_string(&run);
            let mut out: Vec<String> = Vec::new();
            out.push(rs);
            proof {
                assert(out.deep_view() =~= seq![v@.subrange(pos as int, j as int)]);
            }
            (out, j, want, true)
        } else {
            (empty_strings(), j, want, true)
        }
    } else if pos + 1 >= n {
        (empty_strings(), n, want, false)
    } else if v[pos + 1] == '/' {
        proof {
            lemma_find_char(v@, pos as int, '>');
        }
        let j = find_char_exec(v, pos, '>');
        if j >= n {
            (empty_strings(), n, want, false)
        } else {
            (empty_strings(), j + 1, false, true)
        }
    } else if v[pos + 1] == '!' || v[pos + 1] == '?' {
        if n - pos > 3 && v[pos + 1] == '!' && v[pos + 2] == '-' && v[pos + 3] == '-' {
            proof {
                lemma_comment_close(v@, pos + 4 as int);
            }
            let j = comment_close_exec(v, pos + 4);
            if j >= n {
                (empty_strings(), n, want, false)
            } else {
                (empty_strings(), j + 3, want, true)
            }
        } else {
            proof {
                lemma_find_char(v@, pos as int, '>');
            }
            let j = find_char_exec(v, pos, '>');
            if j >= n {
                (empty_strings(), n, want, false)
            } else {
                (empty_strings(), j + 1, want, true)
            }
        }
    } else {
        let ne = name_end_exec(v, pos + 1);
        proof {
            lemma_name_end(v@, pos + 1 as int);
        }
        let ar = scan_attrs_exec(v, ne);
        if !ar.3 {
            (empty_strings(), n, want, false)
        } else {
            let name = vec_subrange(v, pos + 1, ne);
            let want2 = if ar.2 {
                false
            } else if is_path_name_exec(&name) {
                true
            } else {
                want
            };
            (ar.0, ar.1, want2, true)
        }
    }
}

/// Walks a whole document and returns the raw path candidates in
/// document order; on malformed markup it returns what it has.
pub fn xml_candidates(text: &str) -> (r: Vec<String>)
    ensures
        r.deep_view() == candidates(text@),
{
    let v = str_chars(text);
    let n = v.len();
    let mut out: Vec<String> = Vec::new();
    let mut pos: usize = 0;
    let mut want = false;
    proof {
        assert(out.deep_view() =~= Seq::<Seq<char>>::empty());
        assert(Seq::<Seq<char>>::empty() + scan_candidates(v@, 0, false) =~= scan_candidates(
            v@,
            0,
            false,
        ));
    }
    while pos < n
        invariant
            pos <= n,
            n == v@.len(),
            v@ == text@,
            candidates(text@) == out.deep_view() + scan_candidates(v@, pos as int, want),
        decreases n - pos,
    {
        let step = scan_step_exec(&v, pos, want);
        if !step.3 {
            proof {
                assert(scan_candidates(v@, pos as int, want) =~= Seq::<Seq<char>>::empty());
                assert(out.deep_view() + Seq::<Seq<char>>::empty() =~= out.deep_view());
            }
            return out;
        }
        proof {
            lemma_scan_step_bounds(v@, pos as int, want);
        }
        let ghost prev = out.deep_view();
        let ghost st = scan_step(v@, pos as int, want);
        let mut sv = step.0;
        out.append(&mut sv);
        proof {
            assert(out.deep_view() =~= prev + st.vals);
            assert(scan_candidates(v@, pos as int, want) == st.vals + scan_candidates(
                v@,
                st.next,
                st.want,
            ));
            assert(out.deep_view() + scan_candidates(v@, step.1 as int, step.2) =~= prev
                + scan_candidates(v@, pos as int, want));
        }
        pos = step.1;
        want = step.2;
    }
    proof {
        assert(scan_candidates(v@, n as int, want) =~= Seq::<Seq<char>>::empty());
        assert(out.deep_view() + Seq::<Seq<char>>::empty() =~= out.deep_view());
    }
    out
}

/// The asset list of a document: raw candidates normalized, filtered by
/// the extension allow-list, deduplicated case-insensitively keeping the
/// first occurrence, and sorted lexicographically.
pub open spec fn asset_list(s: Seq<char>) -> Seq<Seq<char>> {
    crate::assets::sort_paths(
        crate::assets::dedup_ci(crate::assets::normalize_kept(candidates(s))),
    )
}

/// Extracts the deduplicated, sorted asset list from a document.
pub fn extract_assets(text: &str) -> (r: Vec<String>)
    ensures
        r.deep_view() == asset_list(text@),
        crate::assets::sorted(r.deep_view()),
        crate::assets::distinct_keys(r.deep_view()),
{
    let c = xml_candidates(text);
    crate::assets::collect_assets(&c)
}

} // verus!
