use md_prune_image::cli::{Action, Cli};
use md_prune_image::parser::{
    extract_image_references, is_url, resolution_candidates, strip_fragment, targets_from_captures,
    try_resolve_path,
};
use md_prune_image::paths::{
    display_relative_path, file_name, generate_unique_filename, is_within, join_path,
    move_target, numbered_filename, parent_dir,
};
use md_prune_image::scanner::{
    image_extensions, is_image, is_markdown, scan_for_orphans, DEFAULT_EXTENSIONS,
};

fn strings(v: &[&str]) -> Vec<String> {
    v.iter().map(|s| s.to_string()).collect()
}

#[test]
fn markdown_and_html_references_are_both_found() {
    let refs = extract_image_references("![x](a.png)\n<img src=\"b.png\">").unwrap();
    assert_eq!(refs, strings(&["a.png", "b.png"]));
}

#[test]
fn title_is_not_part_of_the_target() {
    let refs = extract_image_references("![logo](img/logo.png \"The logo\")").unwrap();
    assert_eq!(refs, strings(&["img/logo.png"]));
    let refs = extract_image_references("![logo](img/logo.png 'The logo')").unwrap();
    assert_eq!(refs, strings(&["img/logo.png"]));
}

#[test]
fn html_attributes_before_src_and_single_quotes() {
    let refs = extract_image_references("<img alt=\"a\" width=3 src='pics/c.gif'>").unwrap();
    assert_eq!(refs, strings(&["pics/c.gif"]));
}

#[test]
fn targets_are_trimmed() {
    let refs = extract_image_references("![x]( a.png )").unwrap();
    assert_eq!(refs, strings(&["a.png"]));
}

#[test]
fn text_without_images_has_no_references() {
    assert!(extract_image_references("").unwrap().is_empty());
    assert!(extract_image_references("[link](a.png) and plain text").unwrap().is_empty());
}

#[test]
fn url_references_are_dropped() {
    let refs = extract_image_references(
        "![x](https://example.com/a.png) ![y](http://e.org/b.png) <img src=\"//cdn/c.png\"> ![z](data:image/png;base64,AAAA)",
    )
    .unwrap();
    assert!(refs.is_empty());
    assert!(resolution_candidates("https://example.com/a.png", "/r/docs", "/r").is_empty());
    assert!(is_url("data:xyz"));
    assert!(!is_url("images/a.png"));
    assert!(!is_url("http:/a.png"));
}

#[test]
fn reference_is_tried_from_document_then_root() {
    let c = resolution_candidates("images/a.png", "/r/docs", "/r");
    assert_eq!(c, strings(&["/r/docs/images/a.png", "/r/images/a.png"]));
}

#[test]
fn absolute_reference_is_tried_as_is_last() {
    let c = resolution_candidates("/r/images/a.png", "/r/docs", "/r");
    assert_eq!(c, strings(&["/r/images/a.png", "/r/images/a.png", "/r/images/a.png"]));
}

#[test]
fn percent_encoded_reference_tries_decoded_then_raw() {
    let c = resolution_candidates("my%20photo.png", "/r/docs", "/r");
    assert_eq!(
        c,
        strings(&[
            "/r/docs/my photo.png",
            "/r/my photo.png",
            "/r/docs/my%20photo.png",
            "/r/my%20photo.png",
        ])
    );
    // A file named with the space resolves from the decoded form.
    let found = vec![Some("/r/docs/my photo.png".to_string()), None, None, None];
    assert_eq!(try_resolve_path(&found, "/r"), Some("/r/docs/my photo.png".to_string()));
    // A file whose name holds the `%20` resolves only through the raw fallback.
    let found = vec![None, None, Some("/r/docs/my%20photo.png".to_string()), None];
    assert_eq!(try_resolve_path(&found, "/r"), Some("/r/docs/my%20photo.png".to_string()));
}

#[test]
fn plain_reference_has_no_raw_fallback() {
    let c = resolution_candidates("my photo.png", "/r", "/r");
    assert_eq!(c, strings(&["/r/my photo.png", "/r/my photo.png"]));
}

#[test]
fn undecodable_reference_is_used_raw() {
    let c = resolution_candidates("%FF.png", "/r", "/r");
    assert_eq!(c, strings(&["/r/%FF.png", "/r/%FF.png"]));
}

#[test]
fn fragment_and_query_are_stripped() {
    assert_eq!(strip_fragment("pic.png?v=2#frag"), "pic.png");
    assert_eq!(strip_fragment("pic.png#frag?x"), "pic.png");
    assert_eq!(strip_fragment("pic.png"), "pic.png");
    let c = resolution_candidates("pic.png?v=2#frag", "/r/docs", "/r");
    assert_eq!(c, strings(&["/r/docs/pic.png", "/r/pic.png"]));
}

#[test]
fn reference_outside_the_root_resolves_to_nothing() {
    let c = resolution_candidates("../../outside/pic.png", "/r/docs", "/r");
    assert_eq!(c, strings(&["/r/docs/../../outside/pic.png", "/r/../../outside/pic.png"]));
    let found = vec![Some("/outside/pic.png".to_string()), None];
    assert_eq!(try_resolve_path(&found, "/r"), None);
}

#[test]
fn first_in_scope_candidate_wins() {
    let found = vec![
        None,
        Some("/rx/a.png".to_string()),
        Some("/r/b.png".to_string()),
        Some("/r/c.png".to_string()),
    ];
    assert_eq!(try_resolve_path(&found, "/r"), Some("/r/b.png".to_string()));
    assert_eq!(try_resolve_path(&Vec::new(), "/r"), None);
}

#[test]
fn scope_is_by_component() {
    assert!(is_within("/a/b/c.png", "/a/b"));
    assert!(is_within("/a/b", "/a/b"));
    assert!(!is_within("/a/bc.png", "/a/b"));
    assert!(!is_within("/a", "/a/b"));
    assert!(is_within("/a/b", "/"));
}

#[test]
fn referenced_image_is_not_orphaned() {
    let images = strings(&["/r/images/a.png"]);
    let referenced = strings(&["/r/images/a.png"]);
    assert!(scan_for_orphans(&images, &referenced).is_empty());
}

#[test]
fn unreferenced_image_is_orphaned() {
    let images = strings(&["/r/images/b.png", "/r/images/a.png"]);
    let referenced = strings(&["/r/images/a.png", "/r/other.png"]);
    assert_eq!(scan_for_orphans(&images, &referenced), strings(&["/r/images/b.png"]));
}

#[test]
fn scan_is_sorted_deduplicated_and_repeatable() {
    let images = strings(&["/r/c.png", "/r/a.png", "/r/b.png", "/r/a.png"]);
    let referenced = strings(&["/r/b.png"]);
    let first = scan_for_orphans(&images, &referenced);
    assert_eq!(first, strings(&["/r/a.png", "/r/c.png"]));
    let reordered = strings(&["/r/a.png", "/r/c.png", "/r/b.png"]);
    assert_eq!(scan_for_orphans(&reordered, &referenced), first);
    assert!(scan_for_orphans(&Vec::new(), &referenced).is_empty());
}

#[test]
fn colliding_moves_are_numbered() {
    let existing = strings(&["a.png"]);
    assert_eq!(move_target("dest", "a.png", &existing), Some("dest/a_1.png".to_string()));
    let existing = strings(&["a.png", "a_1.png"]);
    assert_eq!(move_target("dest", "a.png", &existing), Some("dest/a_2.png".to_string()));
    assert_eq!(move_target("dest/", "b.png", &existing), Some("dest/b.png".to_string()));
}

#[test]
fn numbered_names() {
    assert_eq!(numbered_filename("a.png", 1), "a_1.png");
    assert_eq!(numbered_filename("a.png", 10), "a_10.png");
    assert_eq!(numbered_filename("a.tar.gz", 3), "a.tar_3.gz");
    assert_eq!(numbered_filename("archive", 2), "archive_2");
    assert_eq!(numbered_filename(".hidden", 1), ".hidden_1");
    assert_eq!(numbered_filename("a.", 1), "a_1");
    assert_eq!(numbered_filename("x.png", 18446744073709551615), "x_18446744073709551615.png");
    assert_eq!(generate_unique_filename("a.png", &Vec::new()), Some("a_1.png".to_string()));
}

#[test]
fn relative_display() {
    assert_eq!(display_relative_path("/r/images/a.png", "/r"), "images/a.png");
    assert_eq!(display_relative_path("/other/a.png", "/r"), "/other/a.png");
    assert_eq!(display_relative_path("/rx/a.png", "/r"), "/rx/a.png");
    assert_eq!(display_relative_path("/r/x\\y.png", "/r"), "x/y.png");
    assert_eq!(display_relative_path("/r", "/r"), "");
    assert_eq!(display_relative_path("/a.png", "/"), "a.png");
}

#[test]
fn path_parts() {
    assert_eq!(parent_dir("/r/docs/readme.md"), "/r/docs");
    assert_eq!(parent_dir("/readme.md"), "/");
    assert_eq!(parent_dir("readme.md"), "");
    assert_eq!(file_name("/r/docs/readme.md"), "readme.md");
    assert_eq!(join_path("/r/docs", "a.png"), "/r/docs/a.png");
    assert_eq!(join_path("/r/docs/", "a.png"), "/r/docs/a.png");
    assert_eq!(join_path("/r/docs", "/abs/a.png"), "/abs/a.png");
    assert_eq!(join_path("", "a.png"), "a.png");
}

#[test]
fn extension_list_is_trimmed_and_lowered() {
    assert_eq!(image_extensions(" PNG, jpg ,Gif"), strings(&["png", "jpg", "gif"]));
    assert_eq!(
        image_extensions(DEFAULT_EXTENSIONS),
        strings(&["jpg", "jpeg", "png", "gif", "bmp", "svg", "webp"])
    );
    assert_eq!(image_extensions(""), strings(&[""]));
}

#[test]
fn files_are_classified_by_extension() {
    let exts = image_extensions(DEFAULT_EXTENSIONS);
    assert!(is_image("/r/images/a.PNG", &exts));
    assert!(is_image("/r/a.b/c.webp", &exts));
    assert!(!is_image("/r/images/a", &exts));
    assert!(!is_image("/r/.png", &exts));
    assert!(!is_image("/r/notes.md", &exts));
    assert!(is_markdown("/r/README.MD"));
    assert!(is_markdown("/r/notes.Markdown"));
    assert!(!is_markdown("/r/notes.mdx"));
    assert!(!is_markdown("/r/md"));
}

fn options(delete: bool, move_dir: Option<&str>) -> Cli {
    Cli {
        directory: "/r".to_string(),
        recycle: false,
        delete,
        move_dir: move_dir.map(|d| d.to_string()),
        extensions: DEFAULT_EXTENSIONS.to_string(),
    }
}

#[test]
fn action_selection() {
    assert!(matches!(options(true, Some("x")).action(), Action::Delete));
    assert!(matches!(options(false, Some("x")).action(), Action::Move(d) if d == "x"));
    assert!(matches!(options(false, None).action(), Action::Recycle));
}

#[test]
fn captures_are_trimmed_and_urls_dropped() {
    let caps = vec![
        Some("  a.png\t".to_string()),
        None,
        Some("https://e.org/x.png".to_string()),
        Some(" //cdn/y.png".to_string()),
        Some("b c.png".to_string()),
    ];
    assert_eq!(targets_from_captures(&caps), strings(&["a.png", "b c.png"]));
    assert!(targets_from_captures(&Vec::new()).is_empty());
}

#[test]
fn crate_root_names() {
    let refs = md_prune_image::extract_image_references("![a](x.png)").unwrap();
    assert_eq!(refs, strings(&["x.png"]));
    assert_eq!(md_prune_image::display_relative_path("/r/x.png", "/r"), "x.png");
    let none: Vec<String> = Vec::new();
    assert!(md_prune_image::scan_for_orphans(&none, &none).is_empty());
}
