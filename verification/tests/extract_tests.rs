use searchidx::clean_html;
use searchidx::document_events;
use searchidx::document_sections;
use searchidx::extract_sections;
use searchidx::html_anchor_base;
use searchidx::id_from_content;
use searchidx::lowercase;
use searchidx::tidy;
use searchidx::Document;
use searchidx::IndexBuildError;

fn doc(content: &str) -> Document {
    Document {
        title: String::from("Guide"),
        source_path: Some(String::from("guide/intro.md")),
        parent_names: Vec::new(),
        content: String::from(content),
        is_draft: false,
    }
}

#[test]
fn heading_boundaries_make_sections() {
    let d = doc("# Intro\n\nsome intro text\n\n## Setup\n\ninstall things\n");
    let sections = document_sections(&d, 2).unwrap();
    assert_eq!(sections.len(), 2);
    assert_eq!(sections[0].heading, "Intro");
    assert_eq!(sections[0].breadcrumb, "");
    assert_eq!(sections[0].url, "guide/intro.html#intro");
    assert_eq!(sections[1].heading, "Setup");
    assert_eq!(sections[1].breadcrumb, "Intro");
    assert_eq!(sections[1].url, "guide/intro.html#setup");
}

#[test]
fn deep_headings_fold_into_the_body() {
    let d = doc("# Intro\n\ntext\n\n### Deep\n\nmore\n");
    let sections = document_sections(&d, 2).unwrap();
    assert_eq!(sections.len(), 1);
    assert_eq!(sections[0].heading, "Intro");
    assert!(sections[0].body.contains("Deep"));
    assert!(sections[0].body.contains("more"));
}

#[test]
fn sibling_headings_share_the_parent_breadcrumb() {
    let d = doc("# Top\n\n## First\n\na\n\n## Second\n\nb\n");
    let sections = document_sections(&d, 2).unwrap();
    assert_eq!(sections.len(), 3);
    assert_eq!(sections[0].breadcrumb, "");
    assert_eq!(sections[1].breadcrumb, "Top");
    assert_eq!(sections[2].breadcrumb, "Top");
}

#[test]
fn parent_names_seed_the_breadcrumb() {
    let mut d = doc("# Intro\n\ntext\n");
    d.parent_names = vec![String::from("Book"), String::from("Part")];
    let sections = document_sections(&d, 2).unwrap();
    assert_eq!(sections.len(), 1);
    assert_eq!(sections[0].breadcrumb, "Book » Part");
}

#[test]
fn drafts_yield_no_sections() {
    let mut d = doc("# Intro\n\ntext\n");
    d.is_draft = true;
    assert_eq!(document_sections(&d, 2).unwrap().len(), 0);
}

#[test]
fn missing_source_path_fails_the_build() {
    let mut d = doc("# Intro\n");
    d.source_path = None;
    match document_sections(&d, 2) {
        Err(e) => assert_eq!(e, IndexBuildError::MissingSourcePath),
        Ok(_) => panic!("a missing source path must fail the build"),
    }
}

#[test]
fn raw_html_is_sanitized_into_the_body() {
    let d = doc("# Intro\n\n<p>kept text</p>\n<script>alert(1)</script>\n");
    let sections = document_sections(&d, 2).unwrap();
    assert_eq!(sections.len(), 1);
    assert!(sections[0].body.contains("kept text"));
    assert!(!sections[0].body.contains("alert"));
    assert!(!sections[0].body.contains("script"));
}

#[test]
fn footnote_references_become_ordinals() {
    let d = doc("# Intro\n\nsee note[^a] and other[^b]\n\n[^a]: first\n[^b]: second\n");
    let sections = document_sections(&d, 2).unwrap();
    assert_eq!(sections.len(), 1);
    assert!(sections[0].body.contains(" [1] "));
    assert!(sections[0].body.contains(" [2] "));
}

#[test]
fn structural_breaks_keep_words_apart() {
    let d = doc("# Intro\n\nfirst paragraph\n\nsecond paragraph\n");
    let sections = document_sections(&d, 2).unwrap();
    assert!(sections[0].body.contains("paragraph second") || sections[0].body.contains("paragraph  second"));
}

#[test]
fn extract_sections_is_the_engine_behind_documents() {
    let events = document_events("# One\n\nbody text\n");
    let parents: Vec<String> = Vec::new();
    let sections = extract_sections(&events, "Title", "base.html", &parents, 3);
    assert_eq!(sections.len(), 1);
    assert_eq!(sections[0].title, "Title");
    assert_eq!(sections[0].url, "base.html#one");
}

#[test]
fn anchor_base_replaces_the_extension() {
    assert_eq!(html_anchor_base("guide/intro.md"), "guide/intro.html");
    assert_eq!(html_anchor_base("plain"), "plain.html");
    assert_eq!(html_anchor_base("a\\b\\c.md"), "a/b/c.html");
    assert_eq!(html_anchor_base("dir.v2/readme"), "dir.v2/readme.html");
}

#[test]
fn id_normalizes_heading_text() {
    assert_eq!(id_from_content(" Intro "), "intro");
    assert_eq!(id_from_content("## My Heading!"), "my-heading");
    assert_eq!(id_from_content("Getting_Started-Now"), "getting_started-now");
}

#[test]
fn tidy_trims_and_collapses_whitespace() {
    assert_eq!(tidy("  a   b  "), "a b");
    assert_eq!(tidy("one two"), "one two");
    assert_eq!(tidy(""), "");
}

#[test]
fn lowercase_folds_case() {
    assert_eq!(lowercase("AbC"), "abc");
    assert_eq!(lowercase(""), "");
}

#[test]
fn clean_html_strips_tags() {
    assert_eq!(clean_html("<p>hi</p>"), "hi");
    assert_eq!(clean_html("<style>p{}</style>plain"), "plain");
}
