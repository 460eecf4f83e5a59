//! Cross-boundary line matcher: case-insensitive substring search over
//! line-oriented content, detecting needles that straddle a line break by
//! carrying at most `needle length - 1` trailing characters from one line
//! into the test of the next.
use vstd::prelude::*;
use crate::chars::{chars_to_string, find_char, find_char_exec, lemma_find_char, lemma_find_char_shift, str_chars, vec_concat, vec_subrange};
use crate::fold::{fold_chars, fold_seq, lemma_fold_seq_add, lemma_fold_seq_subrange};

verus! {

/// `pat` occurs as a contiguous subsequence of `text`.
pub open spec fn has_match(text: Seq<char>, pat: Seq<char>) -> bool {
    exists|i: int|
        0 <= i && i + pat.len() <= text.len() && #[trigger] text.subrange(i, i + pat.len() as int)
            == pat
}

/// Concatenation of a sequence of lines, with no separators.
pub open spec fn concat_lines(lines: Seq<Seq<char>>) -> Seq<char>
    decreases lines.len(),
{
    if lines.len() == 0 {
        Seq::empty()
    } else {
        concat_lines(lines.drop_last()) + lines.last()
    }
}

/// What the matcher decides: the folded needle occurs somewhere in the
/// folded concatenation of the lines, line breaks ignored.
pub open spec fn lines_match(lines: Seq<Seq<char>>, needle: Seq<char>) -> bool {
    has_match(fold_seq(concat_lines(lines)), fold_seq(needle))
}

/// Length of the carry-over kept after scanning a text of length `tlen`
/// for a needle of length `k`: the full text if it is shorter than the
/// needle, otherwise `k - 1` characters.
pub open spec fn carry_len(tlen: int, k: int) -> int {
    if tlen >= k - 1 {
        k - 1
    } else {
        tlen
    }
}

/// The carry-over: the trailing `carry_len` characters of `t`.
pub open spec fn carry_of(t: Seq<char>, k: int) -> Seq<char> {
    t.subrange(t.len() - carry_len(t.len() as int, k), t.len() as int)
}

/// A match found in a prefix persists when the text is extended.
pub proof fn lemma_match_extend(t: Seq<char>, ext: Seq<char>, pat: Seq<char>)
    requires
        has_match(t, pat),
    ensures
        has_match(t + ext, pat),
{
    let i = choose|i: int|
        0 <= i && i + pat.len() <= t.len() && #[trigger] t.subrange(i, i + pat.len() as int)
            == pat;
    assert((t + ext).subrange(i, i + pat.len() as int) =~= t.subrange(i, i + pat.len() as int));
}

/// The crux of the carry-over technique: testing the carry-over plus the
/// new line sees exactly the matches that end inside the new line, so
/// extending the text by one line yields a match exactly when the old text
/// already had one or the carried text does.
pub proof fn lemma_carry_step(t: Seq<char>, l: Seq<char>, pat: Seq<char>)
    requires
        pat.len() >= 1,
    ensures
        has_match(t + l, pat) == (has_match(t, pat) || has_match(carry_of(t, pat.len() as int) + l, pat)),
{
    let k = pat.len() as int;
    let m = carry_len(t.len() as int, k);
    let c = carry_of(t, k) + l;
    let full = t + l;
    assert(c =~= full.subrange(t.len() - m, full.len() as int));
    if has_match(t, pat) {
        lemma_match_extend(t, l, pat);
    }
    if has_match(c, pat) {
        let i = choose|i: int|
            0 <= i && i + k <= c.len() && #[trigger] c.subrange(i, i + k) == pat;
        let g = t.len() - m + i;
        assert(full.subrange(g, g + k) =~= c.subrange(i, i + k));
        assert(has_match(full, pat));
    }
    if has_match(full, pat) && !has_match(t, pat) {
        let i = choose|i: int|
            0 <= i && i + k <= full.len() && #[trigger] full.subrange(i, i + k) == pat;
        if i + k <= t.len() {
            assert(t.subrange(i, i + k) =~= full.subrange(i, i + k));
            assert(has_match(t, pat));
        } else {
            let j = i - (t.len() - m);
            assert(c.subrange(j, j + k) =~= full.subrange(i, i + k));
            assert(has_match(c, pat));
        }
    }
}

/// Recomputing the carry-over from the carried text plus the new line
/// gives the carry-over of the whole text seen so far.
pub proof fn lemma_carry_extend(t: Seq<char>, l: Seq<char>, k: int)
    requires
        k >= 1,
    ensures
        carry_of(t + l, k) == carry_of(carry_of(t, k) + l, k),
{
    let c = carry_of(t, k) + l;
    let full = t + l;
    if t.len() >= k - 1 {
        assert(carry_of(full, k) =~= carry_of(c, k));
    } else {
        assert(c =~= full);
        assert(carry_of(full, k) =~= carry_of(c, k));
    }
}

/// Appending one more line extends the concatenation by that line.
pub proof fn lemma_concat_take_step(lines: Seq<Seq<char>>, i: int)
    requires
        0 <= i < lines.len(),
    ensures
        concat_lines(lines.take(i + 1)) == concat_lines(lines.take(i)) + lines[i],
{
    let pre = lines.take(i + 1);
    assert(pre.drop_last() =~= lines.take(i));
    assert(pre.last() == lines[i]);
}

/// A match within the first `i` lines is a match within all lines.
pub proof fn lemma_match_take_extend(lines: Seq<Seq<char>>, i: int, pat: Seq<char>)
    requires
        0 <= i <= lines.len(),
        has_match(fold_seq(concat_lines(lines.take(i))), pat),
    ensures
        has_match(fold_seq(concat_lines(lines)), pat),
    decreases lines.len() - i,
{
    if i == lines.len() {
        assert(lines.take(i) =~= lines);
    } else {
        lemma_concat_take_step(lines, i);
        lemma_fold_seq_add(concat_lines(lines.take(i)), lines[i]);
        lemma_match_extend(fold_seq(concat_lines(lines.take(i))), fold_seq(lines[i]), pat);
        lemma_match_take_extend(lines, i + 1, pat);
    }
}

/// Tests whether `pat` occurs in `hay` starting at `i`.
pub(crate) fn match_at(hay: &Vec<char>, pat: &Vec<char>, i: usize) -> (r: bool)
    requires
        i + pat@.len() <= hay@.len(),
    ensures
        r == (hay@.subrange(i as int, i + pat@.len() as int) == pat@),
{
    let n = hay.len();
    let m = pat.len();
    let mut j: usize = 0;
    while j < m
        invariant
            j <= m,
            m == pat@.len(),
            n == hay@.len(),
            i + m <= n,
            forall|x: int| 0 <= x < j ==> hay@[i + x] == pat@[x],
        decreases m - j,
    {
        if hay[i + j] != pat[j] {
            proof {
                let w = hay@.subrange(i as int, i + pat@.len() as int);
                assert(w[j as int] == hay@[i + j]);
            }
            return false;
        }
        j = j + 1;
    }
    proof {
        assert(hay@.subrange(i as int, i + pat@.len() as int) =~= pat@);
    }
    true
}

/// First position at which `pat` occurs in `hay`, if any.
pub fn find_first(hay: &Vec<char>, pat: &Vec<char>) -> (r: Option<usize>)
    ensures
        match r {
            Some(i) => 0 <= i && i + pat@.len() <= hay@.len() && hay@.subrange(
                i as int,
                i + pat@.len() as int,
            ) == pat@ && forall|j: int|
                0 <= j < i ==> #[trigger] hay@.subrange(j, j + pat@.len() as int) != pat@,
            None => !has_match(hay@, pat@),
        },
{
    if pat.len() > hay.len() {
        return None;
    }
    if pat.len() == 0 {
        proof {
            assert(hay@.subrange(0, 0) =~= pat@);
        }
        return Some(0);
    }
    let hn = hay.len();
    let last: usize = hay.len() - pat.len();
    let mut i: usize = 0;
    while i <= last
        invariant
            pat@.len() >= 1,
            hn == hay@.len(),
            last < hn,
            last == hay@.len() - pat@.len(),
            i <= last + 1,
            forall|j: int| 0 <= j < i ==> #[trigger] hay@.subrange(j, j + pat@.len() as int)
                != pat@,
        decreases hay@.len() - i,
    {
        if match_at(hay, pat, i) {
            return Some(i);
        }
        i = i + 1;
    }
    None
}

/// Returns whether the case-folded needle occurs in the case-folded
/// content, line breaks ignored: a needle split across two adjacent lines
/// is still found, through a carry-over of at most `needle length - 1`
/// characters retained from the previous line.
pub fn contains_lines(lines: &Vec<String>, needle: &str) -> (r: bool)
    requires
        needle@.len() >= 1,
    ensures
        r == lines_match(lines.deep_view(), needle@),
{
    let needle_chars = str_chars(needle);
    let pat = fold_chars(&needle_chars);
    let ghost lviews = lines.deep_view();
    let ghost k = pat@.len() as int;
    let mut carry: Vec<char> = Vec::new();
    let mut idx: usize = 0;
    proof {
        assert(lines.deep_view() =~= lines@.map_values(|l: String| l@));
        assert(lviews.take(0) =~= Seq::<Seq<char>>::empty());
        assert(carry_of(fold_seq(concat_lines(lviews.take(0))), k) =~= Seq::<char>::empty());
    }
    while idx < lines.len()
        invariant
            idx <= lines.len(),
            lviews == lines.deep_view(),
            lviews == lines@.map_values(|l: String| l@),
            pat@ == fold_seq(needle@),
            k == pat@.len() >= 1,
            carry@ == carry_of(fold_seq(concat_lines(lviews.take(idx as int))), k),
            !has_match(fold_seq(concat_lines(lviews.take(idx as int))), pat@),
        decreases lines@.len() - idx,
    {
        let line_chars = str_chars(lines[idx].as_str());
        let line_f = fold_chars(&line_chars);
        let combined = vec_concat(&carry, &line_f);
        let ghost t = fold_seq(concat_lines(lviews.take(idx as int)));
        let ghost lf = fold_seq(lviews[idx as int]);
        proof {
            assert(line_chars@ == lviews[idx as int]);
            lemma_concat_take_step(lviews, idx as int);
            lemma_fold_seq_add(concat_lines(lviews.take(idx as int)), lviews[idx as int]);
            assert(fold_seq(concat_lines(lviews.take(idx + 1 as int))) == t + lf);
            lemma_carry_step(t, lf, pat@);
            lemma_carry_extend(t, lf, k);
        }
        let found = find_first(&combined, &pat);
        if found.is_some() {
            proof {
                assert(has_match(combined@, pat@));
                assert(has_match(t + lf, pat@));
                lemma_match_take_extend(lviews, idx + 1 as int, pat@);
            }
            return true;
        }
        let clen = combined.len();
        let keep: usize = if clen >= pat.len() {
            pat.len() - 1
        } else {
            clen
        };
        carry = vec_subrange(&combined, clen - keep, clen);
        proof {
            assert(keep == carry_len(combined@.len() as int, k));
            assert(carry@ == carry_of(combined@, k));
            assert(carry@ == carry_of(fold_seq(concat_lines(lviews.take(idx + 1 as int))), k));
        }
        idx = idx + 1;
    }
    proof {
        assert(lviews.take(lines@.len() as int) =~= lviews);
    }
    false
}

/// A line with a trailing carriage return stripped.
pub open spec fn strip_cr(l: Seq<char>) -> Seq<char> {
    if l.len() > 0 && l.last() == '\r' {
        l.drop_last()
    } else {
        l
    }
}

/// Splits a text into lines at `'\n'`, stripping the newline and a
/// carriage return immediately before it; a final fragment without a
/// newline terminator is kept verbatim, and an empty text has no lines.
pub open spec fn split_lines_spec(s: Seq<char>) -> Seq<Seq<char>>
    decreases s.len(),
{
    if s.len() == 0 {
        Seq::empty()
    } else {
        let j = find_char(s, 0, '\n');
        if 0 <= j && j < s.len() {
            seq![strip_cr(s.subrange(0, j))] + split_lines_spec(
                s.subrange(j + 1, s.len() as int),
            )
        } else {
            seq![s]
        }
    }
}

/// Splits decoded text into its lines.
pub fn split_lines(text: &str) -> (r: Vec<String>)
    ensures
        r.deep_view() == split_lines_spec(text@),
{
    let v = str_chars(text);
    let n = v.len();
    let mut out: Vec<String> = Vec::new();
    let mut pos: usize = 0;
    proof {
        assert(v@.subrange(0, n as int) =~= v@);
        assert(out.deep_view() =~= Seq::<Seq<char>>::empty());
        assert(Seq::<Seq<char>>::empty() + split_lines_spec(v@) =~= split_lines_spec(v@));
    }
    while pos < n
        invariant
            pos <= n,
            n == v@.len(),
            v@ == text@,
            out.deep_view() + split_lines_spec(v@.subrange(pos as int, n as int))
                == split_lines_spec(v@),
        decreases n - pos,
    {
        let ghost rest = v@.subrange(pos as int, n as int);
        let j = find_char_exec(&v, pos, '\n');
        proof {
            lemma_find_char(v@, pos as int, '\n');
            lemma_find_char(rest, 0, '\n');
            lemma_find_char_shift(v@, pos as int, '\n');
        }
        if j == n {
            let frag = vec_subrange(&v, pos, n);
            let line = chars_to_string(&frag);
            let ghost prev = out.deep_view();
            proof {
                assert(rest.len() > 0);
                assert(find_char(rest, 0, '\n') == rest.len());
                assert(split_lines_spec(rest) == seq![rest]);
            }
            out.push(line);
            proof {
                assert(out.deep_view() =~= prev.push(rest));
                assert(prev.push(rest) =~= prev + seq![rest]);
                assert(out.deep_view() + split_lines_spec(v@.subrange(n as int, n as int)) =~= prev
                    + split_lines_spec(rest));
            }
            pos = n;
        } else {
            let mut frag = vec_subrange(&v, pos, j);
            let ghost raw = v@.subrange(pos as int, j as int);
            if frag.len() > 0 && frag[frag.len() - 1] == '\r' {
                frag.pop();
            }
            proof {
                assert(frag@ == strip_cr(raw));
            }
            let line = chars_to_string(&frag);
            let ghost prev = out.deep_view();
            out.push(line);
            proof {
                let jr = find_char(rest, 0, '\n');
                assert(jr == j - pos);
                assert(rest.subrange(0, jr) =~= raw);
                assert(rest.subrange(jr + 1, rest.len() as int) =~= v@.subrange(
                    j + 1 as int,
                    n as int,
                ));
                assert(split_lines_spec(rest) == seq![strip_cr(raw)] + split_lines_spec(
                    v@.subrange(j + 1 as int, n as int),
                ));
                assert(out.deep_view() =~= prev.push(strip_cr(raw)));
                assert(out.deep_view() + split_lines_spec(v@.subrange(j + 1 as int, n as int)) =~=
                    prev + split_lines_spec(rest));
            }
            pos = j + 1;
        }
    }
    proof {
        assert(v@.subrange(n as int, n as int) =~= Seq::<char>::empty());
        assert(split_lines_spec(Seq::<char>::empty()) =~= Seq::<Seq<char>>::empty());
        assert(out.deep_view() =~= out.deep_view() + Seq::<Seq<char>>::empty());
    }
    out
}

/// Law: however a text is split into lines, the matcher's verdict over
/// those lines is exactly whether the case-folded needle occurs in the
/// case-folded unsplit text.
pub proof fn lemma_any_split_match(lines: Seq<Seq<char>>, t: Seq<char>, needle: Seq<char>)
    requires
        concat_lines(lines) == t,
    ensures
        lines_match(lines, needle) == has_match(fold_seq(t), fold_seq(needle)),
{
}

/// Law: splitting a text into two lines at every possible split point
/// preserves the matcher's verdict; in particular a needle whose
/// occurrence straddles the break is still found.
pub proof fn lemma_split_preserves_match(t: Seq<char>, needle: Seq<char>, cut: int)
    requires
        0 <= cut <= t.len(),
    ensures
        lines_match(seq![t.subrange(0, cut), t.subrange(cut, t.len() as int)], needle)
            == has_match(fold_seq(t), fold_seq(needle)),
{
    let a = t.subrange(0, cut);
    let b = t.subrange(cut, t.len() as int);
    let lines = seq![a, b];
    assert(lines.drop_last() =~= seq![a]);
    assert(lines.last() == b);
    assert(concat_lines(lines) == concat_lines(seq![a]) + b);
    assert(seq![a].drop_last() =~= Seq::<Seq<char>>::empty());
    assert(concat_lines(seq![a]) == concat_lines(Seq::<Seq<char>>::empty()) + a);
    assert(concat_lines(Seq::<Seq<char>>::empty()) =~= Seq::<char>::empty());
    assert(concat_lines(lines) =~= t);
}

/// Tab characters replaced by spaces, as done when a snippet is rendered.
pub open spec fn detab(s: Seq<char>) -> Seq<char> {
    s.map_values(|c: char| if c == '\t' { ' ' } else { c })
}

/// The truncation marker prepended or appended to a snippet whose window
/// does not reach the physical start or end of the combined text.
pub open spec fn dots() -> Seq<char> {
    seq!['.', '.', '.']
}

/// An optional truncation marker.
pub open spec fn mark(present: bool) -> Seq<char> {
    if present {
        dots()
    } else {
        Seq::empty()
    }
}

/// The effective snippet character budget: a requested budget of zero
/// selects the default of 120 characters.
pub open spec fn spec_budget(requested: usize) -> int {
    if requested == 0 {
        120
    } else {
        requested as int
    }
}

/// Well-formedness of a returned snippet: between its optional truncation
/// markers it is a tab-blanked window of consecutive characters of the
/// content, the window stays within the character budget (so it can never
/// split a character), and whenever the needle itself fits in the budget
/// the window exhibits a case-folded occurrence of it.
pub open spec fn snippet_shape(out: Seq<char>, full: Seq<char>, needle: Seq<char>, budget: int) -> bool {
    exists|i: int, j: int, pre: bool, suf: bool|
        #![trigger full.subrange(i, j), mark(pre), mark(suf)]
        0 <= i <= j <= full.len() && j - i <= budget && out == mark(pre) + detab(
            full.subrange(i, j),
        ) + mark(suf) && (needle.len() <= budget ==> has_match(
            fold_seq(full.subrange(i, j)),
            fold_seq(needle),
        ))
}

/// Replaces tabs by spaces.
fn detab_chars(v: &Vec<char>) -> (r: Vec<char>)
    ensures
        r@ == detab(v@),
{
    let mut out: Vec<char> = Vec::new();
    let mut i: usize = 0;
    while i < v.len()
        invariant
            i <= v@.len(),
            out@ == detab(v@.subrange(0, i as int)),
        decreases v@.len() - i,
    {
        let c = v[i];
        out.push(if c == '\t' { ' ' } else { c });
        proof {
            assert(detab(v@.subrange(0, i + 1 as int)) =~= detab(v@.subrange(0, i as int)).push(
                if v@[i as int] == '\t' { ' ' } else { v@[i as int] },
            ));
        }
        i = i + 1;
    }
    proof {
        assert(v@.subrange(0, v@.len() as int) =~= v@);
    }
    out
}

/// Every prefix of the concatenated lines is a prefix of the whole.
pub proof fn lemma_concat_take_prefix(lines: Seq<Seq<char>>, i: int)
    requires
        0 <= i <= lines.len(),
    ensures
        concat_lines(lines.take(i)).len() <= concat_lines(lines).len(),
        concat_lines(lines.take(i)) == concat_lines(lines).subrange(
            0,
            concat_lines(lines.take(i)).len() as int,
        ),
    decreases lines.len() - i,
{
    if i == lines.len() {
        assert(lines.take(i) =~= lines);
        assert(concat_lines(lines).subrange(0, concat_lines(lines).len() as int) =~= concat_lines(
            lines,
        ));
    } else {
        lemma_concat_take_step(lines, i);
        lemma_concat_take_prefix(lines, i + 1);
        let a = concat_lines(lines.take(i));
        let b = concat_lines(lines.take(i + 1));
        let f = concat_lines(lines);
        assert(a =~= f.subrange(0, a.len() as int));
    }
}

/// Searches the lines for the case-folded needle and, on the first match,
/// returns a snippet of at most `budget_req` characters (120 when zero is
/// requested) around the match, with `...` markers where the window was
/// truncated.  Returns `None` exactly when the needle does not occur.
#[verifier::rlimit(60)]
pub fn snippet_lines(lines: &Vec<String>, needle: &str, budget_req: usize) -> (r: Option<String>)
    requires
        needle@.len() >= 1,
    ensures
        (r is Some) == lines_match(lines.deep_view(), needle@),
        r is Some ==> snippet_shape(
            r->0@,
            concat_lines(lines.deep_view()),
            needle@,
            spec_budget(budget_req),
        ),
{
    let needle_chars = str_chars(needle);
    let pat = fold_chars(&needle_chars);
    let budget: usize = if budget_req == 0 { 120 } else { budget_req };
    let k = pat.len();
    let ghost lviews = lines.deep_view();
    let mut carry: Vec<char> = Vec::new();
    let mut idx: usize = 0;
    proof {
        assert(lviews.take(0) =~= Seq::<Seq<char>>::empty());
        assert(carry_of(concat_lines(lviews.take(0)), k as int) =~= Seq::<char>::empty());
    }
    while idx < lines.len()
        invariant
            idx <= lines.len(),
            lviews == lines.deep_view(),
            pat@ == fold_seq(needle@),
            k == pat@.len() == needle@.len(),
            k >= 1,
            budget as int == spec_budget(budget_req),
            budget >= 1,
            carry@ == carry_of(concat_lines(lviews.take(idx as int)), k as int),
            !has_match(fold_seq(concat_lines(lviews.take(idx as int))), pat@),
        decreases lines@.len() - idx,
    {
        let line_chars = str_chars(lines[idx].as_str());
        let combined = vec_concat(&carry, &line_chars);
        let cf = fold_chars(&combined);
        let ghost t_u = concat_lines(lviews.take(idx as int));
        let ghost t_f = fold_seq(t_u);
        let ghost lseq = lviews[idx as int];
        let ghost cfull = concat_lines(lviews.take(idx + 1 as int));
        proof {
            assert(line_chars@ == lseq);
            lemma_concat_take_step(lviews, idx as int);
            lemma_fold_seq_add(t_u, lseq);
            lemma_fold_seq_add(carry@, lseq);
            lemma_fold_seq_subrange(t_u, t_u.len() - carry_len(t_u.len() as int, k as int), t_u.len() as int);
            assert(fold_seq(carry@) == carry_of(t_f, k as int));
            assert(cf@ == carry_of(t_f, k as int) + fold_seq(lseq));
            lemma_carry_step(t_f, fold_seq(lseq), pat@);
            lemma_carry_extend(t_u, lseq, k as int);
        }
        let found = find_first(&cf, &pat);
        if let Some(pos) = found {
            proof {
                assert(has_match(cf@, pat@));
                assert(fold_seq(cfull) == t_f + fold_seq(lseq));
                lemma_match_take_extend(lviews, idx + 1 as int, pat@);
            }
            let clen = combined.len();
            let (start, end): (usize, usize) = if k >= budget {
                (pos, pos + budget)
            } else {
                let half = (budget - k) / 2;
                let s0 = if pos >= half { pos - half } else { 0 };
                let e0 = if clen - s0 >= budget { s0 + budget } else { clen };
                (s0, e0)
            };
            proof {
                assert(start <= pos && pos + k <= clen);
                assert(end - start <= budget);
                assert(k <= budget ==> end >= pos + k);
            }
            let wvec = vec_subrange(&combined, start, end);
            let dvec = detab_chars(&wvec);
            let core_text = chars_to_string(&dvec);
            let pre = start > 0;
            let suf = end < clen;
            let mut snip = String::new();
            if pre {
                snip.append("...");
            }
            snip.append(core_text.as_str());
            if suf {
                snip.append("...");
            }
            proof {
                reveal_strlit("...");
                assert("..."@ =~= dots());
                let w = combined@.subrange(start as int, end as int);
                assert(snip@ == mark(pre) + detab(w) + mark(suf));
                // place the window inside the full concatenation
                let full = concat_lines(lviews);
                lemma_concat_take_prefix(lviews, idx + 1 as int);
                let off = cfull.len() - combined@.len();
                assert(combined@ =~= cfull.subrange(off, cfull.len() as int));
                let gi = off + start;
                let gj = off + end;
                assert(full.subrange(gi, gj) =~= w);
                // the window exhibits the match when the needle fits
                if k <= budget {
                    lemma_fold_seq_subrange(combined@, start as int, end as int);
                    assert(fold_seq(w) == cf@.subrange(start as int, end as int));
                    assert(fold_seq(w).subrange(pos - start, pos - start + k) =~= cf@.subrange(
                        pos as int,
                        pos + k as int,
                    ));
                    assert(has_match(fold_seq(w), pat@));
                }
                assert(snippet_shape(snip@, full, needle@, spec_budget(budget_req)));
            }
            return Some(snip);
        }
        let clen = combined.len();
        let keep: usize = if clen >= k { k - 1 } else { clen };
        carry = vec_subrange(&combined, clen - keep, clen);
        proof {
            assert(keep == carry_len(combined@.len() as int, k as int));
            assert(carry@ == carry_of(combined@, k as int));
            assert(fold_seq(cfull) == t_f + fold_seq(lseq));
            assert(!has_match(fold_seq(cfull), pat@));
        }
        idx = idx + 1;
    }
    proof {
        assert(lviews.take(lines@.len() as int) =~= lviews);
    }
    None
}

} // verus!
