use searchidx::Index;
use searchidx::Locator;

fn two_section_index() -> Index {
    let mut ix = Index::new();
    let a = Locator::new(
        String::from("Intro"),
        String::from("intro.html#top"),
        String::from(""),
    );
    let a_tokens = vec![String::from("rust"), String::from("guide")];
    ix.add_section(a, &a_tokens).unwrap();
    let b = Locator::new(
        String::from("Search"),
        String::from("search.html#top"),
        String::from("Intro"),
    );
    let b_tokens = vec![String::from("rust"), String::from("search")];
    ix.add_section(b, &b_tokens).unwrap();
    ix
}

#[test]
fn tie_on_score_keeps_insertion_order() {
    let ix = two_section_index();
    let r = ix.search("rust", 10);
    assert_eq!(r.len(), 2);
    assert_eq!(r[0].title, "Intro");
    assert_eq!(r[0].url, "intro.html#top");
    assert_eq!(r[1].title, "Search");
    assert_eq!(r[1].url, "search.html#top");
    assert_eq!(r[1].breadcrumb, "Intro");
}

#[test]
fn higher_score_ranks_first() {
    let ix = two_section_index();
    let r = ix.search("rust search", 10);
    assert_eq!(r.len(), 2);
    assert_eq!(r[0].title, "Search");
    assert_eq!(r[1].title, "Intro");
}

#[test]
fn absent_terms_return_nothing() {
    let ix = two_section_index();
    let r = ix.search("xyz", 10);
    assert_eq!(r.len(), 0);
}

#[test]
fn zero_results_requested_yields_empty() {
    let ix = two_section_index();
    assert_eq!(ix.search("rust", 0).len(), 0);
    assert_eq!(ix.search("rust search", 0).len(), 0);
    assert_eq!(ix.search("", 0).len(), 0);
    assert_eq!(ix.search("anything at all", 0).len(), 0);
}

#[test]
fn empty_query_yields_empty() {
    let ix = two_section_index();
    assert_eq!(ix.search("", 10).len(), 0);
    assert_eq!(ix.search("   ", 10).len(), 0);
}

#[test]
fn truncation_is_a_prefix() {
    let ix = two_section_index();
    let r1 = ix.search("rust search", 1);
    let r2 = ix.search("rust search", 2);
    assert_eq!(r1.len(), 1);
    assert_eq!(r2.len(), 2);
    assert_eq!(r1[0].title, r2[0].title);
    assert_eq!(r1[0].url, r2[0].url);
}

#[test]
fn query_is_case_insensitive() {
    let ix = two_section_index();
    let r = ix.search("RuSt", 10);
    assert_eq!(r.len(), 2);
}

#[test]
fn mixed_case_content_matches_lowercase_query() {
    let mut ix = Index::new();
    let loc = Locator::new(
        String::from("Doc"),
        String::from("doc.html"),
        String::from(""),
    );
    let tokens = vec![String::from("Rust"), String::from("GUIDE")];
    ix.add_section(loc, &tokens).unwrap();
    assert_eq!(ix.search("rust", 10).len(), 1);
    assert_eq!(ix.search("guide", 10).len(), 1);
    assert_eq!(ix.search("Rust", 10).len(), 1);
}

#[test]
fn duplicate_query_terms_score_once() {
    let mut ix = Index::new();
    let one = Locator::new(
        String::from("One"),
        String::from("one.html"),
        String::from(""),
    );
    let one_tokens = vec![String::from("alpha")];
    ix.add_section(one, &one_tokens).unwrap();
    let two = Locator::new(
        String::from("Two"),
        String::from("two.html"),
        String::from(""),
    );
    let two_tokens = vec![String::from("alpha"), String::from("beta")];
    ix.add_section(two, &two_tokens).unwrap();
    // "alpha alpha" scores 1 for both sections: insertion order decides.
    let r = ix.search("alpha alpha", 10);
    assert_eq!(r.len(), 2);
    assert_eq!(r[0].title, "One");
    // "alpha beta" scores 2 for Two, 1 for One.
    let r = ix.search("alpha beta", 10);
    assert_eq!(r[0].title, "Two");
}

#[test]
fn split_terms_keeps_order_and_duplicates() {
    let terms = searchidx::split_ws("  one two  two\tthree ");
    assert_eq!(terms.len(), 4);
    assert_eq!(terms[0], "one");
    assert_eq!(terms[1], "two");
    assert_eq!(terms[2], "two");
    assert_eq!(terms[3], "three");
    assert_eq!(searchidx::split_ws("").len(), 0);
}

#[test]
fn index_len_counts_sections() {
    let ix = two_section_index();
    assert_eq!(ix.len(), 2);
}

#[test]
fn empty_token_list_always_builds() {
    let tokens: Vec<String> = Vec::new();
    let f = searchidx::Filter::build(&tokens).unwrap();
    assert!(!f.contains("anything"));

    let mut ix = searchidx::Index::new();
    let loc = Locator::new(
        String::from("Empty"),
        String::from("empty.html"),
        String::from(""),
    );
    ix.add_section(loc, &tokens).unwrap();
    assert_eq!(ix.len(), 1);
    assert_eq!(ix.search("anything", 10).len(), 0);
}

#[test]
fn filter_has_no_false_negatives() {
    let tokens = vec![
        String::from("every"),
        String::from("token"),
        String::from("added"),
        String::from("stays"),
        String::from("present"),
    ];
    let f = searchidx::Filter::build(&tokens).unwrap();
    for t in &tokens {
        assert!(f.contains(t));
    }
}
