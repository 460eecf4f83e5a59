//! The per-file engine: one invocation per candidate file, in exactly one
//! of three operating modes — boolean containment search, first-match
//! snippet extraction, or asset listing — over a raw buffer the caller
//! read from disk.  A file whose on-disk size exceeds the configured
//! threshold is never read at all: `size_exceeds` makes that decision and
//! the skipped file counts as "no result" in every mode.
use vstd::prelude::*;
use vstd::utf8::valid_utf8;
use crate::assets::{distinct_keys, filter_ci, sorted};
use crate::chars::str_chars;
use crate::fold::{fold_chars, fold_seq};
use crate::decode::{decode_text, is_gzip, payload_of, text_of, ErrorKind};
use crate::search::{
    concat_lines, contains_lines, lines_match, snippet_lines, snippet_shape, spec_budget,
    split_lines, split_lines_spec,
};
use crate::xmlscan::{asset_list, extract_assets};

verus! {

/// The default size threshold: 100 megabytes.
pub const DEFAULT_MAX_FILE_BYTES: u64 = 100 * 1024 * 1024;

/// The three operating modes of one engine invocation.
pub enum ScanMode {
    /// Case-insensitive containment search for a non-empty needle.
    Contains { needle: String },
    /// Containment search that also extracts a bounded snippet around
    /// the first match; a budget of zero selects the default of 120.
    Snippet { needle: String, budget: usize },
    /// Asset listing, optionally filtered by a case-insensitive
    /// substring of the normalized path.
    ListAssets { filter: Option<String> },
}

/// The typed result of one engine invocation.
#[derive(Debug)]
pub enum ScanOutcome {
    NotFound,
    Found,
    FoundWithSnippet(String),
    Assets(Vec<String>),
    Failed(ErrorKind),
}

/// The needles of the search modes must be non-empty; an empty needle is
/// rejected upstream and never reaches the engine.
pub open spec fn mode_wf(mode: ScanMode) -> bool {
    match mode {
        ScanMode::Contains { needle } => needle@.len() >= 1,
        ScanMode::Snippet { needle, budget } => needle@.len() >= 1,
        ScanMode::ListAssets { filter } => true,
    }
}

/// The size threshold: exceeded exactly when a maximum is configured and
/// the on-disk size is strictly above it.
pub open spec fn size_exceeds_spec(size: u64, max_bytes: Option<u64>) -> bool {
    max_bytes is Some && size > max_bytes->0
}

/// Decides whether a file's on-disk size exceeds the threshold, before
/// the file is ever opened for content reading.
pub fn size_exceeds(size: u64, max_bytes: Option<u64>) -> (r: bool)
    ensures
        r == size_exceeds_spec(size, max_bytes),
{
    match max_bytes {
        Some(m) => size > m,
        None => false,
    }
}

/// What a containment scan may answer over a raw buffer.
pub open spec fn contains_outcome(raw: Seq<u8>, needle: Seq<char>, r: ScanOutcome) -> bool {
    match r {
        ScanOutcome::Found => valid_utf8(payload_of(raw)) && lines_match(
            split_lines_spec(text_of(raw)),
            needle,
        ),
        ScanOutcome::NotFound => valid_utf8(payload_of(raw)) && !lines_match(
            split_lines_spec(text_of(raw)),
            needle,
        ),
        ScanOutcome::Failed(k) => k == ErrorKind::Decode && (is_gzip(raw) || !valid_utf8(raw)),
        _ => false,
    }
}

/// What a snippet scan may answer over a raw buffer.
pub open spec fn snippet_outcome(raw: Seq<u8>, needle: Seq<char>, budget: usize, r: ScanOutcome) -> bool {
    match r {
        ScanOutcome::FoundWithSnippet(s) => valid_utf8(payload_of(raw)) && lines_match(
            split_lines_spec(text_of(raw)),
            needle,
        ) && snippet_shape(
            s@,
            concat_lines(split_lines_spec(text_of(raw))),
            needle,
            spec_budget(budget),
        ),
        ScanOutcome::NotFound => valid_utf8(payload_of(raw)) && !lines_match(
            split_lines_spec(text_of(raw)),
            needle,
        ),
        ScanOutcome::Failed(k) => k == ErrorKind::Decode && (is_gzip(raw) || !valid_utf8(raw)),
        _ => false,
    }
}

/// The asset list owed for a raw buffer, after the optional filter.
pub open spec fn assets_expected(raw: Seq<u8>, filter: Option<Seq<char>>) -> Seq<Seq<char>> {
    match filter {
        Some(f) => filter_ci(asset_list(text_of(raw)), f),
        None => asset_list(text_of(raw)),
    }
}

/// What an asset scan may answer over a raw buffer.
pub open spec fn assets_outcome(raw: Seq<u8>, filter: Option<Seq<char>>, r: ScanOutcome) -> bool {
    match r {
        ScanOutcome::Assets(a) => valid_utf8(payload_of(raw)) && a.deep_view() == assets_expected(
            raw,
            filter,
        ) && sorted(a.deep_view()) && distinct_keys(a.deep_view()),
        ScanOutcome::Failed(k) => k == ErrorKind::Decode && (is_gzip(raw) || !valid_utf8(raw)),
        _ => false,
    }
}

/// Containment search over a raw buffer: decode, split into lines, and
/// run the cross-boundary matcher.
pub fn content_contains(raw: &Vec<u8>, needle: &str) -> (r: Result<bool, ErrorKind>)
    requires
        needle@.len() >= 1,
    ensures
        r is Ok ==> valid_utf8(payload_of(raw@)) && r->Ok_0 == lines_match(
            split_lines_spec(text_of(raw@)),
            needle@,
        ),
        r is Err ==> r->Err_0 == ErrorKind::Decode,
        !is_gzip(raw@) ==> ((r is Ok) == valid_utf8(raw@)),
{
    let text = match decode_text(raw) {
        Ok(t) => t,
        Err(e) => {
            return Err(e);
        },
    };
    let lines = split_lines(text.as_str());
    Ok(contains_lines(&lines, needle))
}

/// Snippet search over a raw buffer: like `content_contains`, but the
/// first match also yields a bounded snippet.
pub fn content_snippet(raw: &Vec<u8>, needle: &str, budget: usize) -> (r: Result<
    Option<String>,
    ErrorKind,
>)
    requires
        needle@.len() >= 1,
    ensures
        r is Ok ==> valid_utf8(payload_of(raw@)) && ((r->Ok_0 is Some) == lines_match(
            split_lines_spec(text_of(raw@)),
            needle@,
        )),
        r is Ok && r->Ok_0 is Some ==> snippet_shape(
            r->Ok_0->0@,
            concat_lines(split_lines_spec(text_of(raw@))),
            needle@,
            spec_budget(budget),
        ),
        r is Err ==> r->Err_0 == ErrorKind::Decode,
        !is_gzip(raw@) ==> ((r is Ok) == valid_utf8(raw@)),
{
    let text = match decode_text(raw) {
        Ok(t) => t,
        Err(e) => {
            return Err(e);
        },
    };
    let lines = split_lines(text.as_str());
    Ok(snippet_lines(&lines, needle, budget))
}

/// Asset listing over a raw buffer: decode, extract the sorted and
/// deduplicated asset list, then apply the optional filter term.
pub fn content_assets(raw: &Vec<u8>, filter: Option<&str>) -> (r: Result<Vec<String>, ErrorKind>)
    ensures
        r is Ok ==> valid_utf8(payload_of(raw@)) && r->Ok_0.deep_view() == (match filter {
            Some(f) => filter_ci(asset_list(text_of(raw@)), f@),
            None => asset_list(text_of(raw@)),
        }),
        r is Ok ==> sorted(r->Ok_0.deep_view()) && distinct_keys(r->Ok_0.deep_view()),
        r is Err ==> r->Err_0 == ErrorKind::Decode,
        !is_gzip(raw@) ==> ((r is Ok) == valid_utf8(raw@)),
{
    let text = match decode_text(raw) {
        Ok(t) => t,
        Err(e) => {
            return Err(e);
        },
    };
    let assets = extract_assets(text.as_str());
    match filter {
        Some(f) => {
            proof {
                crate::assets::lemma_filter_ci(assets.deep_view(), f@);
            }
            Ok(crate::assets::filter_assets(&assets, f))
        },
        None => Ok(assets),
    }
}

/// One engine invocation: the caller hands in the on-disk size, the
/// configured threshold, the raw content — only when the threshold
/// admits reading it — and the mode.  A file over the threshold yields
/// "no result" in every mode; otherwise the mode's scan runs on the
/// buffer.
pub fn scan(
    file_size: u64,
    max_bytes: Option<u64>,
    content: Option<&Vec<u8>>,
    mode: &ScanMode,
) -> (r: ScanOutcome)
    requires
        mode_wf(*mode),
        (content is Some) == !size_exceeds_spec(file_size, max_bytes),
    ensures
        match *mode {
            ScanMode::Contains { needle } => if size_exceeds_spec(file_size, max_bytes) {
                r is NotFound
            } else {
                contains_outcome(content->0@, needle@, r)
            },
            ScanMode::Snippet { needle, budget } => if size_exceeds_spec(file_size, max_bytes) {
                r is NotFound
            } else {
                snippet_outcome(content->0@, needle@, budget, r)
            },
            ScanMode::ListAssets { filter } => if size_exceeds_spec(file_size, max_bytes) {
                r matches ScanOutcome::Assets(a) && a.deep_view() == Seq::<Seq<char>>::empty()
            } else {
                assets_outcome(
                    content->0@,
                    match filter {
                        Some(f) => Some(f@),
                        None => None,
                    },
                    r,
                )
            },
        },
{
    if size_exceeds(file_size, max_bytes) {
        match mode {
            ScanMode::ListAssets { filter } => {
                let empty: Vec<String> = Vec::new();
                proof {
                    assert(empty.deep_view() =~= Seq::<Seq<char>>::empty());
                }
                ScanOutcome::Assets(empty)
            },
            _ => ScanOutcome::NotFound,
        }
    } else {
        let raw = match content {
            Some(b) => b,
            None => {
                return ScanOutcome::Failed(ErrorKind::Io);
            },
        };
        match mode {
            ScanMode::Contains { needle } => match content_contains(raw, needle.as_str()) {
                Ok(true) => ScanOutcome::Found,
                Ok(false) => ScanOutcome::NotFound,
                Err(e) => ScanOutcome::Failed(e),
            },
            ScanMode::Snippet { needle, budget } => match content_snippet(
                raw,
                needle.as_str(),
                *budget,
            ) {
                Ok(Some(s)) => ScanOutcome::FoundWithSnippet(s),
                Ok(None) => ScanOutcome::NotFound,
                Err(e) => ScanOutcome::Failed(e),
            },
            ScanMode::ListAssets { filter } => {
                let f: Option<&str> = match filter {
                    Some(t) => Some(t.as_str()),
                    None => None,
                };
                match content_assets(raw, f) {
                    Ok(a) => ScanOutcome::Assets(a),
                    Err(e) => ScanOutcome::Failed(e),
                }
            },
        }
    }
}

/// A directory name is excluded when it equals one of the configured
/// excluded names, compared case-insensitively.
pub open spec fn name_excluded_spec(name: Seq<char>, excludes: Seq<Seq<char>>) -> bool {
    exists|i: int| 0 <= i < excludes.len() && fold_seq(#[trigger] excludes[i]) == fold_seq(name)
}

/// Decides whether a directory name is excluded from the walk.
pub fn name_is_excluded(name: &str, excludes: &Vec<String>) -> (r: bool)
    ensures
        r == name_excluded_spec(name@, excludes.deep_view()),
{
    let ghost d = excludes.deep_view();
    let name_chars = str_chars(name);
    let folded = fold_chars(&name_chars);
    let mut i: usize = 0;
    while i < excludes.len()
        invariant
            i <= excludes@.len(),
            d == excludes.deep_view(),
            folded@ == fold_seq(name@),
            forall|j: int| 0 <= j < i ==> fold_seq(#[trigger] d[j]) != fold_seq(name@),
        decreases excludes@.len() - i,
    {
        let e = str_chars(excludes[i].as_str());
        let ef = fold_chars(&e);
        if ef.len() == folded.len() {
            let mut k: usize = 0;
            let mut same = true;
            while k < ef.len()
                invariant
                    k <= ef@.len(),
                    ef@.len() == folded@.len(),
                    same == (forall|x: int| 0 <= x < k ==> ef@[x] == folded@[x]),
                decreases ef@.len() - k,
            {
                if ef[k] != folded[k] {
                    same = false;
                    proof {
                        assert(ef@[k as int] != folded@[k as int]);
                    }
                }
                k = k + 1;
            }
            if same {
                proof {
                    assert(ef@ =~= folded@);
                    assert(d[i as int] == excludes@[i as int]@);
                }
                return true;
            }
        }
        proof {
            assert(d[i as int] == excludes@[i as int]@);
            if fold_seq(d[i as int]) == fold_seq(name@) {
                assert(ef@ == folded@);
            }
        }
        i = i + 1;
    }
    proof {
        if name_excluded_spec(name@, d) {
            let j = choose|j: int| 0 <= j < d.len() && fold_seq(#[trigger] d[j]) == fold_seq(name@);
        }
    }
    false
}

} // verus!
