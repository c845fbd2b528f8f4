use searchidx::Index;
use searchidx::Locator;

fn sample_index() -> Index {
    let mut ix = Index::new();
    let a = Locator::new(
        String::from("Intro"),
        String::from("intro.html#top"),
        String::from(""),
    );
    let a_tokens = vec![String::from("rust"), String::from("guide")];
    ix.add_section(a, &a_tokens).unwrap();
    let b = Locator::new(
        String::from("Søk"),
        String::from("søk.html#søk"),
        String::from("Intro » Søk"),
    );
    let b_tokens = vec![String::from("rust"), String::from("søk")];
    ix.add_section(b, &b_tokens).unwrap();
    ix
}

#[test]
fn round_trip_preserves_locators_and_order() {
    let ix = sample_index();
    let bytes = ix.to_bytes();
    let back = Index::from_bytes(&bytes).unwrap();
    assert_eq!(back.entries.len(), ix.entries.len());
    for (orig, copy) in ix.entries.iter().zip(back.entries.iter()) {
        assert_eq!(orig.0.title, copy.0.title);
        assert_eq!(orig.0.url, copy.0.url);
        assert_eq!(orig.0.breadcrumb, copy.0.breadcrumb);
    }
}

#[test]
fn round_trip_preserves_membership() {
    let ix = sample_index();
    let bytes = ix.to_bytes();
    let back = Index::from_bytes(&bytes).unwrap();
    assert!(back.entries[0].1.contains("rust"));
    assert!(back.entries[0].1.contains("guide"));
    assert!(back.entries[1].1.contains("rust"));
    assert!(back.entries[1].1.contains("søk"));
}

#[test]
fn round_trip_bytes_are_identical() {
    let ix = sample_index();
    let bytes = ix.to_bytes();
    let back = Index::from_bytes(&bytes).unwrap();
    assert_eq!(back.to_bytes(), bytes);
}

#[test]
fn searching_a_reloaded_index_matches() {
    let ix = sample_index();
    let bytes = ix.to_bytes();
    let back = Index::from_bytes(&bytes).unwrap();
    let r = back.search("rust", 10);
    assert_eq!(r.len(), 2);
    assert_eq!(r[0].title, "Intro");
    assert_eq!(r[1].title, "Søk");
}

#[test]
fn truncated_artifact_is_corrupt() {
    let ix = sample_index();
    let bytes = ix.to_bytes();
    for cut in [0usize, 1, 7, 8, 9, bytes.len() - 1] {
        let short: Vec<u8> = bytes[..cut].to_vec();
        assert!(Index::from_bytes(&short).is_err());
    }
}

#[test]
fn trailing_garbage_is_corrupt() {
    let ix = sample_index();
    let mut bytes = ix.to_bytes();
    bytes.push(0);
    assert!(Index::from_bytes(&bytes).is_err());
}

#[test]
fn invalid_utf8_is_corrupt() {
    let ix = sample_index();
    let mut bytes = ix.to_bytes();
    // The first title byte sits right after the two length prefixes.
    bytes[16] = 0xff;
    assert!(Index::from_bytes(&bytes).is_err());
}

#[test]
fn empty_index_round_trips() {
    let ix = Index::new();
    let bytes = ix.to_bytes();
    let back = Index::from_bytes(&bytes).unwrap();
    assert_eq!(back.entries.len(), 0);
}
