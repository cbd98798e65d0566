//! Reference extraction from markdown text and the order in which a reference is
//! tried against the filesystem.
use vstd::prelude::*;
use crate::error::Error;
use crate::paths::{joined, views, within};
use crate::text::{cut_at, cut_before, has_prefix, starts_with, trim, trimmed};

verus! {

/// Markdown image syntax, `![alt](target)` or `![alt](target "title")`; group 1 is
/// the target.
pub const MARKDOWN_IMAGE_PATTERN: &'static str = r#"!\[.*?]\(([^)]+?)(?:\s+["'].*?["'])?\)"#;

/// HTML image tags, `<img ... src="target">`; group 1 is the target.
pub const HTML_IMAGE_PATTERN: &'static str = r#"<img[^>]+src=["']([^"']+)["']"#;

/// A reference that names a remote or inline resource rather than a file.
pub open spec fn is_url_ref(s: Seq<char>) -> bool {
    has_prefix(s, "http://"@) || has_prefix(s, "https://"@) || has_prefix(s, "//"@)
        || has_prefix(s, "data:"@)
}

/// Whether `path` starts with `http://`, `https://`, `//` or `data:`.
pub fn is_url(path: &str) -> (r: bool)
    ensures
        r == is_url_ref(path@),
{
    starts_with(path, "http://") || starts_with(path, "https://") || starts_with(path, "//")
        || starts_with(path, "data:")
}

/// What compiling `pattern` and collecting capture group 1 of each successive
/// non-overlapping match in `text` gives: `None` when the pattern does not compile.
pub uninterp spec fn regex_group_captures(pattern: Seq<char>, text: Seq<char>) -> Option<
    Seq<Option<Seq<char>>>,
>;

/// The views of a vector of optional strings.
pub open spec fn opt_views(v: Seq<Option<String>>) -> Seq<Option<Seq<char>>> {
    v.map_values(|o: Option<String>| match o {
        Some(s) => Some(s@),
        None => None,
    })
}

/// Relies on `regex::Regex::new`, which compiles `pattern` or fails, and on
/// `Regex::captures_iter` with `Captures::get(1)`, which give capture group 1 of each
/// successive match; both depend on the pattern and the text alone. A compilation
/// error is handed back as its message.
#[verifier::external_body]
fn group_captures(pattern: &str, text: &str) -> (r: Result<Vec<Option<String>>, String>)
    ensures
        r matches Ok(v) ==> regex_group_captures(pattern@, text@) == Some(opt_views(v@)),
        r is Err ==> regex_group_captures(pattern@, text@) is None,
{
    let re = regex::Regex::new(pattern).map_err(|e| e.to_string())?;
    Ok(re.captures_iter(text).map(|c| c.get(1).map(|m| m.as_str().to_string())).collect())
}

/// The targets kept from a sequence of captures: each present one, trimmed of white
/// space, unless it is a URL.
pub open spec fn reference_targets(caps: Seq<Option<Seq<char>>>) -> Seq<Seq<char>>
    decreases caps.len(),
{
    if caps.len() == 0 {
        Seq::empty()
    } else {
        let rest = reference_targets(caps.drop_last());
        match caps.last() {
            Some(t) => if is_url_ref(trimmed(t)) {
                rest
            } else {
                rest.push(trimmed(t))
            },
            None => rest,
        }
    }
}

/// The references that a list of captures holds (see `reference_targets`).
pub fn targets_from_captures(caps: &Vec<Option<String>>) -> (r: Vec<String>)
    ensures
        views(r@) == reference_targets(opt_views(caps@)),
{
    let mut out: Vec<String> = Vec::new();
    let mut i: usize = 0;
    while i < caps.len()
        invariant
            0 <= i <= caps.len(),
            views(out@) == reference_targets(opt_views(caps@).take(i as int)),
        decreases caps.len() - i,
    {
        let ghost before = out@;
        assert(opt_views(caps@).take(i + 1).drop_last() =~= opt_views(caps@).take(i as int));
        match &caps[i] {
            Some(t) => {
                let tt = trim(t.as_str());
                if !is_url(tt.as_str()) {
                    out.push(tt);
                    assert(views(out@) =~= views(before).push(trimmed(t@)));
                }
            },
            None => {},
        }
        i = i + 1;
    }
    assert(opt_views(caps@).take(caps.len() as int) =~= opt_views(caps@));
    out
}

/// The image references in a markdown text: the targets of markdown image syntax,
/// then those of HTML image tags, trimmed, URLs left out. Fails only when a
/// pattern does not compile.
pub fn extract_image_references(content: &str) -> (r: Result<Vec<String>, Error>)
    ensures
        match (
            regex_group_captures(MARKDOWN_IMAGE_PATTERN@, content@),
            regex_group_captures(HTML_IMAGE_PATTERN@, content@),
        ) {
            (Some(a), Some(b)) => r matches Ok(v) && views(v@) == reference_targets(a)
                + reference_targets(b),
            _ => r matches Err(Error::InvalidRegex(_)),
        },
{
    let md = group_captures(MARKDOWN_IMAGE_PATTERN, content);
    let html = group_captures(HTML_IMAGE_PATTERN, content);
    match (md, html) {
        (Ok(a), Ok(b)) => {
            let mut out = targets_from_captures(&a);
            let mut more = targets_from_captures(&b);
            let ghost (x, y) = (out@, more@);
            out.append(&mut more);
            assert(views(out@) =~= views(x) + views(y));
            Ok(out)
        },
        (Err(e), _) => Err(Error::InvalidRegex(e)),
        (_, Err(e)) => Err(Error::InvalidRegex(e)),
    }
}

/// What percent-decoding `s` and reading the bytes as UTF-8 gives: `None` when the
/// bytes are not UTF-8.
pub uninterp spec fn percent_decoded(s: Seq<char>) -> Option<Seq<char>>;

/// Relies on `percent_encoding::percent_decode_str` with `decode_utf8`: each `%`
/// followed by two hexadecimal digits becomes that byte and every other byte is
/// kept, so a string without `%` comes back as it is; the result fails when the
/// bytes are not UTF-8.
#[verifier::external_body]
fn percent_decode(s: &str) -> (r: Option<String>)
    ensures
        r matches Some(d) ==> percent_decoded(s@) == Some(d@),
        r is None ==> percent_decoded(s@) is None,
        r is None ==> s@.contains('%'),
        r matches Some(d) ==> (s@.contains('%') || d@ == s@),
{
    percent_encoding::percent_decode_str(s).decode_utf8().ok().map(|d| d.into_owned())
}

/// A reference without its fragment and query: what precedes the first `#`, then
/// what of that precedes the first `?`.
pub open spec fn without_fragment(s: Seq<char>) -> Seq<char> {
    cut_at(cut_at(s, '#'), '?')
}

/// `s` without fragment and query (see `without_fragment`).
pub fn strip_fragment(s: &str) -> (r: String)
    ensures
        r@ == without_fragment(s@),
{
    let a = cut_before(s, '#');
    cut_before(a.as_str(), '?')
}

/// The places where a cleaned reference `p` may name a file, in the order they are
/// tried: relative to the markdown file's directory, relative to the scan root,
/// and, when `p` is absolute, `p` itself.
pub open spec fn bases_for(p: Seq<char>, markdown_dir: Seq<char>, base_dir: Seq<char>) -> Seq<
    Seq<char>,
> {
    let both = seq![joined(markdown_dir, p), joined(base_dir, p)];
    if p.len() > 0 && p[0] == '/' {
        both.push(p)
    } else {
        both
    }
}

/// The reference as decoded: the percent-decoded text, or the raw text when
/// decoding fails.
pub open spec fn decoded_ref(raw: Seq<char>) -> Seq<char> {
    match percent_decoded(raw) {
        Some(d) => d,
        None => raw,
    }
}

/// Every path to try for the reference `raw`, in order, the first that exists in
/// scope winning: none for a URL; else the places for the decoded reference without
/// its fragment and query, then, when decoding changed the text, those for the raw
/// reference without its fragment and query.
pub open spec fn resolution_order(raw: Seq<char>, markdown_dir: Seq<char>, base_dir: Seq<char>) -> Seq<
    Seq<char>,
> {
    if is_url_ref(raw) {
        Seq::empty()
    } else {
        let decoded = decoded_ref(raw);
        let first = bases_for(without_fragment(decoded), markdown_dir, base_dir);
        if decoded != raw {
            first + bases_for(without_fragment(raw), markdown_dir, base_dir)
        } else {
            first
        }
    }
}

fn push_bases(out: &mut Vec<String>, p: &str, markdown_dir: &str, base_dir: &str)
    ensures
        views(final(out)@) == views(old(out)@) + bases_for(p@, markdown_dir@, base_dir@),
{
    let ghost before = out@;
    out.push(crate::paths::join_path(markdown_dir, p));
    out.push(crate::paths::join_path(base_dir, p));
    if p.unicode_len() > 0 && p.get_char(0) == '/' {
        out.push(String::from_str(p));
    }
    assert(views(out@) =~= views(before) + bases_for(p@, markdown_dir@, base_dir@));
}

/// The paths to canonicalize for the reference `img_path` found in a markdown
/// file in `markdown_dir`, in the order they are tried (see `resolution_order`).
pub fn resolution_candidates(img_path: &str, markdown_dir: &str, base_dir: &str) -> (r: Vec<
    String,
>)
    ensures
        views(r@) == resolution_order(img_path@, markdown_dir@, base_dir@),
{
    let mut out: Vec<String> = Vec::new();
    if is_url(img_path) {
        assert(views(out@) =~= Seq::<Seq<char>>::empty());
        return out;
    }
    let decoded = match percent_decode(img_path) {
        Some(d) => d,
        None => String::from_str(img_path),
    };
    assert(decoded@ == decoded_ref(img_path@));
    let clean = strip_fragment(decoded.as_str());
    assert(views(out@) =~= Seq::<Seq<char>>::empty());
    push_bases(&mut out, clean.as_str(), markdown_dir, base_dir);
    if !crate::text::same_text(decoded.as_str(), img_path) {
        let clean_raw = strip_fragment(img_path);
        push_bases(&mut out, clean_raw.as_str(), markdown_dir, base_dir);
    } else {
        assert(views(out@) =~= bases_for(without_fragment(decoded@), markdown_dir@, base_dir@));
    }
    out
}

/// The first canonical form, in order, that exists and lies within `base_dir`.
pub open spec fn first_in_scope(found: Seq<Option<Seq<char>>>, base_dir: Seq<char>) -> Option<
    Seq<char>,
>
    decreases found.len(),
{
    if found.len() == 0 {
        None
    } else {
        match found[0] {
            Some(c) => if within(c, base_dir) {
                Some(c)
            } else {
                first_in_scope(found.drop_first(), base_dir)
            },
            None => first_in_scope(found.drop_first(), base_dir),
        }
    }
}

proof fn lemma_first_in_scope_skip(found: Seq<Option<Seq<char>>>, base_dir: Seq<char>, i: int)
    requires
        0 <= i <= found.len(),
        forall|j: int|
            0 <= j < i ==> !(#[trigger] found[j] matches Some(c) && within(c, base_dir)),
    ensures
        first_in_scope(found, base_dir) == first_in_scope(found.skip(i), base_dir),
    decreases i,
{
    if i > 0 {
        lemma_first_in_scope_skip(found.drop_first(), base_dir, i - 1);
        assert(found.drop_first().skip(i - 1) =~= found.skip(i));
    } else {
        assert(found.skip(0) =~= found);
    }
}

/// Picks the resolution of a reference from the canonical forms of its candidate
/// paths (`None` where a candidate does not exist), given in the order of
/// `resolution_candidates`: the first that lies within the canonical `base_dir`.
pub fn try_resolve_path(canonical: &Vec<Option<String>>, base_dir: &str) -> (r: Option<String>)
    ensures
        r matches Some(c) ==> first_in_scope(opt_views(canonical@), base_dir@) == Some(c@),
        r is None ==> first_in_scope(opt_views(canonical@), base_dir@) is None,
{
    let ghost found = opt_views(canonical@);
    let mut i: usize = 0;
    while i < canonical.len()
        invariant
            0 <= i <= canonical.len(),
            found == opt_views(canonical@),
            forall|j: int|
                0 <= j < i ==> !(#[trigger] found[j] matches Some(c) && within(c, base_dir@)),
        decreases canonical.len() - i,
    {
        match &canonical[i] {
            Some(c) => {
                if crate::paths::is_within(c.as_str(), base_dir) {
                    proof {
                        lemma_first_in_scope_skip(found, base_dir@, i as int);
                    }
                    return Some(c.clone());
                }
            },
            None => {},
        }
        i = i + 1;
    }
    proof {
        lemma_first_in_scope_skip(found, base_dir@, i as int);
    }
    None
}

/// A resolved reference is one of the canonical forms it was chosen from and lies
/// within the scan root: a reference that leads outside the root protects nothing.
pub proof fn lemma_resolution_in_scope(found: Seq<Option<Seq<char>>>, base_dir: Seq<char>)
    ensures
        first_in_scope(found, base_dir) matches Some(c) ==> within(c, base_dir) && exists|i: int|
            0 <= i < found.len() && found[i] == Some(c),
    decreases found.len(),
{
    if found.len() > 0 {
        lemma_resolution_in_scope(found.drop_first(), base_dir);
        if let Some(c) = first_in_scope(found, base_dir) {
            if found[0] != Some(c) {
                let i = choose|i: int| 0 <= i < found.drop_first().len() && found.drop_first()[i] == Some(c);
                assert(found[i + 1] == Some(c));
            }
        }
    }
}

/// A URL is never tried against the filesystem.
pub proof fn lemma_url_never_resolved(raw: Seq<char>, markdown_dir: Seq<char>, base_dir: Seq<char>)
    requires
        is_url_ref(raw),
    ensures
        resolution_order(raw, markdown_dir, base_dir).len() == 0,
{
}

} // verus!
