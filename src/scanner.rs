//! File classification and the reconciliation of images against references.
use vstd::prelude::*;
use crate::paths::{extension, extension_of, file_name_of, views};
use crate::text::{
    cut_at, cut_before, eq_ignore_ascii_case, equals_ignore_ascii_case, first_index, lex_lt,
    lemma_lex_irreflexive, lemma_lex_total, lemma_lex_transitive, less_than, lower_of, to_lower,
    trim, trimmed,
};

verus! {

/// The extensions recognised as images when none are given.
pub const DEFAULT_EXTENSIONS: &'static str = "jpg,jpeg,png,gif,bmp,svg,webp";

proof fn lemma_first_index_le(s: Seq<char>, c: char)
    ensures
        first_index(s, c) <= s.len(),
        first_index(s, c) < s.len() ==> s[first_index(s, c) as int] == c,
    decreases s.len(),
{
    if s.len() > 0 && s[0] != c {
        lemma_first_index_le(s.drop_first(), c);
    }
}

/// The pieces of `s` between separators `c`: one more piece than there are `c`s.
pub open spec fn split_on(s: Seq<char>, c: char) -> Seq<Seq<char>>
    decreases s.len(),
{
    let k = first_index(s, c);
    if k >= s.len() {
        seq![s]
    } else {
        seq![s.take(k as int)] + split_on(s.skip(k + 1int), c)
    }
}

/// The extension set named by a comma-separated list: each item trimmed of white
/// space and put in lower case.
pub open spec fn extension_list(list: Seq<char>) -> Seq<Seq<char>> {
    split_on(list, ',').map_values(|p: Seq<char>| lower_of(trimmed(p)))
}

/// Parses a comma-separated list of image extensions (see `extension_list`).
pub fn image_extensions(list: &str) -> (r: Vec<String>)
    ensures
        views(r@) == extension_list(list@),
{
    let n = list.unicode_len();
    let mut pieces: Vec<String> = Vec::new();
    let mut start: usize = 0;
    assert(views(pieces@) =~= Seq::<Seq<char>>::empty());
    assert(list@.skip(0) =~= list@);
    loop
        invariant_except_break
            views(pieces@) + split_on(list@.skip(start as int), ',') == split_on(list@, ','),
        invariant
            n == list@.len(),
            start <= n,
        ensures
            views(pieces@) == split_on(list@, ','),
        decreases n - start,
    {
        let rest = list.substring_char(start, n);
        assert(rest@ =~= list@.skip(start as int));
        let piece = cut_before(rest, ',');
        proof {
            lemma_first_index_le(rest@, ',');
        }
        let k = piece.as_str().unicode_len();
        assert(k == first_index(rest@, ','));
        let ghost before = pieces@;
        pieces.push(piece);
        assert(views(pieces@) =~= views(before).push(cut_at(rest@, ',')));
        if start + k == n {
            assert(split_on(rest@, ',') == seq![rest@]);
            assert(cut_at(rest@, ',') =~= rest@);
            assert(views(pieces@) =~= views(before) + split_on(rest@, ','));
            break;
        }
        assert(rest@.skip(k + 1) =~= list@.skip(start + k + 1));
        assert(split_on(rest@, ',') == seq![rest@.take(k as int)] + split_on(rest@.skip(k + 1), ','));
        assert(views(pieces@) + split_on(list@.skip(start + k + 1), ',') =~= views(before)
            + split_on(rest@, ','));
        start = start + k + 1;
    }
    let mut out: Vec<String> = Vec::new();
    let mut i: usize = 0;
    while i < pieces.len()
        invariant
            0 <= i <= pieces.len(),
            views(pieces@) == split_on(list@, ','),
            views(out@) =~= views(pieces@).take(i as int).map_values(
                |p: Seq<char>| lower_of(trimmed(p)),
            ),
        decreases pieces.len() - i,
    {
        let t = trim(pieces[i].as_str());
        let ghost before = views(out@);
        out.push(to_lower(t.as_str()));
        assert(views(pieces@).take(i + 1) =~= views(pieces@).take(i as int).push(pieces@[i as int]@));
        assert(views(out@) =~= before.push(lower_of(trimmed(pieces@[i as int]@))));
        i = i + 1;
    }
    assert(views(pieces@).take(pieces.len() as int) =~= views(pieces@));
    out
}

/// The file at `p` is an image: its extension, in lower case, is one of `exts`.
pub open spec fn image_file(p: Seq<char>, exts: Seq<Seq<char>>) -> bool {
    extension_of(file_name_of(p)) matches Some(e) && exts.contains(lower_of(e))
}

/// Whether the file at `path` is an image for the lower-case extensions `exts`.
pub fn is_image(path: &str, exts: &Vec<String>) -> (r: bool)
    ensures
        r == image_file(path@, views(exts@)),
{
    match extension(path) {
        Some(e) => {
            let low = to_lower(e.as_str());
            crate::paths::contains_str(exts, low.as_str())
        },
        None => false,
    }
}

/// The file at `p` is a markdown document: its extension is `md` or `markdown`,
/// ASCII letters compared without case.
pub open spec fn markdown_file(p: Seq<char>) -> bool {
    extension_of(file_name_of(p)) matches Some(e) && (eq_ignore_ascii_case(e, "md"@)
        || eq_ignore_ascii_case(e, "markdown"@))
}

/// Whether the file at `path` is a markdown document.
pub fn is_markdown(path: &str) -> (r: bool)
    ensures
        r == markdown_file(path@),
{
    match extension(path) {
        Some(e) => equals_ignore_ascii_case(e.as_str(), "md") || equals_ignore_ascii_case(
            e.as_str(),
            "markdown",
        ),
        None => false,
    }
}

/// Strictly increasing in lexicographic order, hence without repeats.
pub open spec fn strictly_sorted(s: Seq<Seq<char>>) -> bool {
    forall|i: int, j: int| 0 <= i < j < s.len() ==> lex_lt(#[trigger] s[i], #[trigger] s[j])
}

/// `out` lists the orphans: the images that are not referenced, each once, in
/// lexicographic order.
pub open spec fn orphan_listing(
    images: Set<Seq<char>>,
    referenced: Set<Seq<char>>,
    out: Seq<Seq<char>>,
) -> bool {
    &&& strictly_sorted(out)
    &&& forall|x: Seq<char>| #[trigger] out.contains(x) <==> images.contains(x) && !referenced.contains(x)
}

fn insert_sorted(out: &mut Vec<String>, s: String)
    requires
        strictly_sorted(views(old(out)@)),
    ensures
        strictly_sorted(views(final(out)@)),
        forall|x: Seq<char>| #[trigger] views(final(out)@).contains(x) <==> (views(old(out)@).contains(x) || x == s@),
{
    let ghost old_v = views(out@);
    let mut p: usize = 0;
    while p < out.len() && less_than(out[p].as_str(), s.as_str())
        invariant
            p <= out.len(),
            out@ == old(out)@,
            old_v == views(out@),
            forall|j: int| 0 <= j < p ==> lex_lt(#[trigger] old_v[j], s@),
        decreases out.len() - p,
    {
        p = p + 1;
    }
    if p < out.len() && crate::text::same_text(out[p].as_str(), s.as_str()) {
        assert(old_v[p as int] == s@);
        return;
    }
    proof {
        if p < old_v.len() {
            lemma_lex_total(old_v[p as int], s@);
        }
    }
    let ghost sv = s@;
    out.insert(p, s);
    let ghost new_v = views(out@);
    assert(new_v =~= old_v.insert(p as int, sv));
    assert forall|i: int, j: int| 0 <= i < j < new_v.len() implies lex_lt(
        #[trigger] new_v[i],
        #[trigger] new_v[j],
    ) by {
        if j == p {
        } else if i == p {
            if j - 1 > p {
                lemma_lex_transitive(sv, old_v[p as int], old_v[j - 1]);
            }
        } else if i < p && j > p {
            if j - 1 > p {
                lemma_lex_transitive(sv, old_v[p as int], old_v[j - 1]);
            }
            lemma_lex_transitive(old_v[i], sv, new_v[j]);
        }
    }
    assert forall|x: Seq<char>| #[trigger] new_v.contains(x) <==> (old_v.contains(x) || x == sv) by {
        if new_v.contains(x) {
            let k = choose|k: int| 0 <= k < new_v.len() && new_v[k] == x;
            if k < p {
                assert(old_v[k] == x);
            } else if k > p {
                assert(old_v[k - 1] == x);
            }
        }
        if old_v.contains(x) {
            let k = choose|k: int| 0 <= k < old_v.len() && old_v[k] == x;
            if k < p {
                assert(new_v[k] == x);
            } else {
                assert(new_v[k + 1] == x);
            }
        }
        if x == sv {
            assert(new_v[p as int] == x);
        }
    }
}

/// The orphans among `images`, the canonical image paths found under the scan root,
/// given `referenced`, the canonical paths that references resolved to: the images
/// not referenced, each once, in lexicographic order.
pub fn scan_for_orphans(images: &Vec<String>, referenced: &Vec<String>) -> (r: Vec<String>)
    ensures
        orphan_listing(views(images@).to_set(), views(referenced@).to_set(), views(r@)),
{
    let mut out: Vec<String> = Vec::new();
    let mut i: usize = 0;
    while i < images.len()
        invariant
            0 <= i <= images.len(),
            strictly_sorted(views(out@)),
            forall|x: Seq<char>| #[trigger] views(out@).contains(x) <==> (views(images@).take(i as int).contains(x)
                && !views(referenced@).contains(x)),
        decreases images.len() - i,
    {
        let ghost before = views(out@);
        let ghost img = images@[i as int]@;
        assert(views(images@).take(i + 1) =~= views(images@).take(i as int).push(img));
        if !crate::paths::contains_str(referenced, images[i].as_str()) {
            insert_sorted(&mut out, images[i].clone());
        }
        assert forall|x: Seq<char>| #[trigger] views(out@).contains(x) <==> (views(images@).take(i + 1).contains(x)
            && !views(referenced@).contains(x)) by {
            if views(images@).take(i as int).push(img).contains(x) && x != img {
                let k = choose|k: int| 0 <= k < i + 1 && views(images@).take(i as int).push(img)[k] == x;
                assert(views(images@).take(i as int)[k] == x);
            }
            if views(images@).take(i as int).contains(x) {
                let k = choose|k: int| 0 <= k < i && views(images@).take(i as int)[k] == x;
                assert(views(images@).take(i as int).push(img)[k] == x);
            }
            assert(views(images@).take(i as int).push(img)[i as int] == img);
        }
        i = i + 1;
    }
    assert(views(images@).take(images.len() as int) =~= views(images@));
    out
}

/// Detection is idempotent: two listings of the orphans of the same images and
/// references are the same sequence, whatever order the inputs came in.
pub proof fn lemma_orphan_listing_unique(
    images: Set<Seq<char>>,
    referenced: Set<Seq<char>>,
    a: Seq<Seq<char>>,
    b: Seq<Seq<char>>,
)
    requires
        orphan_listing(images, referenced, a),
        orphan_listing(images, referenced, b),
    ensures
        a == b,
{
    lemma_sorted_same_members(a, b);
}

proof fn lemma_sorted_same_members(a: Seq<Seq<char>>, b: Seq<Seq<char>>)
    requires
        strictly_sorted(a),
        strictly_sorted(b),
        forall|x: Seq<char>| a.contains(x) <==> b.contains(x),
    ensures
        a == b,
    decreases a.len(),
{
    if a.len() == 0 {
        if b.len() > 0 {
            assert(b.contains(b[0]));
        }
        assert(a =~= b);
    } else if b.len() == 0 {
        assert(a.contains(a[0]));
    } else {
        assert(a.contains(a[0]));
        assert(b.contains(b[0]));
        if a[0] != b[0] {
            let i = choose|i: int| 0 <= i < a.len() && a[i] == b[0];
            let j = choose|j: int| 0 <= j < b.len() && b[j] == a[0];
            assert(i > 0 && j > 0);
            assert(lex_lt(a[0], a[i]));
            assert(lex_lt(b[0], b[j]));
            lemma_lex_total(a[0], b[0]);
        }
        let (ta, tb) = (a.drop_first(), b.drop_first());
        assert forall|x: Seq<char>| ta.contains(x) <==> tb.contains(x) by {
            if ta.contains(x) {
                let k = choose|k: int| 0 <= k < ta.len() && ta[k] == x;
                assert(a[k + 1] == x);
                assert(a.contains(x));
                assert(lex_lt(a[0], x));
                lemma_lex_irreflexive(x);
                let m = choose|m: int| 0 <= m < b.len() && b[m] == x;
                assert(m != 0);
                assert(tb[m - 1] == x);
            }
            if tb.contains(x) {
                let k = choose|k: int| 0 <= k < tb.len() && tb[k] == x;
                assert(b[k + 1] == x);
                assert(lex_lt(b[0], x));
                lemma_lex_irreflexive(x);
                assert(a.contains(x));
                let m = choose|m: int| 0 <= m < a.len() && a[m] == x;
                assert(m != 0);
                assert(ta[m - 1] == x);
            }
        }
        assert(strictly_sorted(ta)) by {
            assert forall|i: int, j: int| 0 <= i < j < ta.len() implies lex_lt(#[trigger] ta[i], #[trigger] ta[j]) by {
                assert(a[i + 1] == ta[i] && a[j + 1] == ta[j]);
            }
        }
        assert(strictly_sorted(tb)) by {
            assert forall|i: int, j: int| 0 <= i < j < tb.len() implies lex_lt(#[trigger] tb[i], #[trigger] tb[j]) by {
                assert(b[i + 1] == tb[i] && b[j + 1] == tb[j]);
            }
        }
        lemma_sorted_same_members(ta, tb);
        assert(a =~= seq![a[0]] + ta);
        assert(b =~= seq![b[0]] + tb);
    }
}

/// A referenced image is never listed as an orphan.
pub proof fn lemma_reference_protects(
    images: Set<Seq<char>>,
    referenced: Set<Seq<char>>,
    out: Seq<Seq<char>>,
    x: Seq<char>,
)
    requires
        orphan_listing(images, referenced, out),
        referenced.contains(x),
    ensures
        !out.contains(x),
{
}

/// An image that no reference resolved to is listed as an orphan.
pub proof fn lemma_unreferenced_is_orphan(
    images: Set<Seq<char>>,
    referenced: Set<Seq<char>>,
    out: Seq<Seq<char>>,
    x: Seq<char>,
)
    requires
        orphan_listing(images, referenced, out),
        images.contains(x),
        !referenced.contains(x),
    ensures
        out.contains(x),
{
}

} // verus!
