use ergvein_filters::gcs::{gcs_match_all, gcs_match_any, GcsFilterWriter};

const K0: u64 = 0x0706050403020100;
const K1: u64 = 0x0f0e0d0c0b0a0908;

fn build(elements: &[&[u8]], k0: u64, k1: u64) -> Vec<u8> {
    let mut w = GcsFilterWriter::new(k0, k1);
    for e in elements {
        w.add_element(e);
    }
    w.finish()
}

fn q(elements: &[&[u8]]) -> Vec<Vec<u8>> {
    elements.iter().map(|e| e.to_vec()).collect()
}

#[test]
fn empty_filter_has_zero_count_only() {
    let content = build(&[], K0, K1);
    assert_eq!(content, vec![0u8]);
}

#[test]
fn empty_filter_matches_nothing() {
    let content = build(&[], K0, K1);
    let query = q(&[b"abc"]);
    assert_eq!(gcs_match_any(content.as_slice(), K0, K1, &query), Some(false));
    assert_eq!(gcs_match_all(content.as_slice(), K0, K1, &query), Some(false));
}

#[test]
fn self_match_every_element() {
    let elems: &[&[u8]] = &[b"alpha", b"beta", b"gamma", b"delta", b"epsilon"];
    let content = build(elems, K0, K1);
    for e in elems {
        let query = q(&[e]);
        assert_eq!(gcs_match_any(content.as_slice(), K0, K1, &query), Some(true));
    }
}

#[test]
fn match_all_subset_always_true() {
    let elems: &[&[u8]] = &[b"alpha", b"beta", b"gamma", b"delta"];
    let content = build(elems, K0, K1);
    let subsets: &[&[&[u8]]] = &[
        &[b"alpha"],
        &[b"beta", b"delta"],
        &[b"alpha", b"beta", b"gamma", b"delta"],
        &[b"gamma", b"gamma"],
    ];
    for sub in subsets {
        let query = q(sub);
        assert_eq!(gcs_match_all(content.as_slice(), K0, K1, &query), Some(true));
    }
}

#[test]
fn match_all_fails_on_foreign_element() {
    let elems: &[&[u8]] = &[b"alpha", b"beta"];
    let content = build(elems, K0, K1);
    let query = q(&[b"alpha", b"unrelated thing"]);
    assert_eq!(gcs_match_all(content.as_slice(), K0, K1, &query), Some(false));
}

#[test]
fn empty_query_never_matches() {
    let elems: &[&[u8]] = &[b"alpha", b"beta"];
    let content = build(elems, K0, K1);
    let query: Vec<Vec<u8>> = Vec::new();
    assert_eq!(gcs_match_any(content.as_slice(), K0, K1, &query), Some(false));
    assert_eq!(gcs_match_all(content.as_slice(), K0, K1, &query), Some(false));
}

#[test]
fn build_is_deterministic() {
    let elems: &[&[u8]] = &[b"one", b"two", b"three", b"two"];
    let a = build(elems, K0, K1);
    let b = build(elems, K0, K1);
    assert_eq!(a, b);
}

#[test]
fn build_is_order_independent() {
    let elems: &[&[u8]] = &[b"one", b"two", b"three", b"four", b"five"];
    let mut rev: Vec<&[u8]> = elems.to_vec();
    rev.reverse();
    let a = build(elems, K0, K1);
    let b = build(&rev, K0, K1);
    assert_eq!(a, b);
}

#[test]
fn keys_change_the_filter() {
    // shows the keyed hash really feeds the coded values
    let elems: &[&[u8]] = &[b"one", b"two", b"three"];
    let a = build(elems, K0, K1);
    let b = build(elems, K1, K0);
    assert_ne!(a, b);
}

#[test]
fn hashing_depends_on_element_bytes() {
    // a filter from one element must not match a different element
    // (false positives are possible in general but these fixed inputs do
    // not collide at a rate of one in 784931)
    let content = build(&[b"only element"], K0, K1);
    let query = q(&[b"another element"]);
    assert_eq!(gcs_match_any(content.as_slice(), K0, K1, &query), Some(false));
}

#[test]
fn false_positive_rate_stays_low() {
    // statistical sanity: none of 300 unrelated fixed queries should hit a
    // 50-element filter when the expected rate is 1 in 784931
    let owned: Vec<Vec<u8>> = (0u32..50).map(|i| format!("member-{}", i).into_bytes()).collect();
    let elems: Vec<&[u8]> = owned.iter().map(|v| v.as_slice()).collect();
    let content = build(elems.as_slice(), K0, K1);
    let mut hits = 0u32;
    for i in 0u32..300 {
        let probe = format!("outsider-{}", i).into_bytes();
        let query = vec![probe];
        if gcs_match_any(content.as_slice(), K0, K1, &query) == Some(true) {
            hits += 1;
        }
    }
    assert_eq!(hits, 0);
}

#[test]
fn truncated_filter_is_corrupt() {
    let elems: &[&[u8]] = &[b"alpha", b"beta", b"gamma"];
    let content = build(elems, K0, K1);
    let query = q(&[b"nothing here"]);
    // cutting the body off mid-stream must surface as corruption
    let truncated = &content[..content.len() - 1];
    assert_eq!(gcs_match_any(truncated, K0, K1, &query), None);
    assert_eq!(gcs_match_all(truncated, K0, K1, &query), None);
}

#[test]
fn oversized_count_is_corrupt() {
    // claims 32 elements, carries almost no bits
    let content = vec![0x20u8, 0xab];
    let query = q(&[b"x"]);
    assert_eq!(gcs_match_any(content.as_slice(), K0, K1, &query), None);
}

#[test]
fn empty_buffer_is_corrupt() {
    let content: Vec<u8> = Vec::new();
    let query = q(&[b"x"]);
    assert_eq!(gcs_match_any(content.as_slice(), K0, K1, &query), None);
}

#[test]
fn duplicates_cost_bits_but_still_match() {
    let once = build(&[b"alpha", b"beta"], K0, K1);
    let twice = build(&[b"alpha", b"alpha", b"beta"], K0, K1);
    // the duplicate appears as a zero delta: the buffers differ
    assert_ne!(once, twice);
    let query = q(&[b"alpha"]);
    assert_eq!(gcs_match_any(twice.as_slice(), K0, K1, &query), Some(true));
    assert_eq!(gcs_match_all(twice.as_slice(), K0, K1, &query), Some(true));
}
