use hca::bundle::{bundle, compress_mp4c};
use hca::hypervector::Hypervector;
use hca::{DIMS, PACKED_BYTES};

fn hv(t: &str) -> Hypervector {
    Hypervector::from_string(t, None)
}

fn bit(data: &[u8], k: usize) -> bool {
    (data[k / 8] >> (7 - k % 8)) & 1 == 1
}

#[test]
fn bundle_of_nothing_is_zero_vector() {
    let b = bundle(&[]);
    assert_eq!(b.data, hv("zero").data);
    assert_eq!(b.concept_id, "zero");
    assert_eq!(b.source_text, "zero");
}

#[test]
fn bundle_three_known_bytes() {
    let b = bundle(&[hv("a"), hv("b"), hv("c")]);
    assert_eq!(&b.data[..4], &[116, 9, 159, 106]);
    assert_eq!(b.concept_id, "bundle");
    assert_eq!(b.source_text, "");
}

#[test]
fn bundle_is_bitwise_majority() {
    let vs = [hv("m1"), hv("m2"), hv("m3"), hv("m4"), hv("m5")];
    let b = bundle(&vs);
    for k in 0..DIMS {
        let ones = vs.iter().filter(|v| bit(&v.data, k)).count();
        assert_eq!(bit(&b.data, k), ones * 2 > vs.len());
    }
}

#[test]
fn bundle_single_is_identity() {
    let a = hv("only");
    assert_eq!(bundle(&[a.clone()]).data, a.data);
}

#[test]
fn bundle_pair_is_and() {
    let a = hv("first");
    let b = hv("second");
    let out = bundle(&[a.clone(), b.clone()]);
    for i in 0..PACKED_BYTES {
        assert_eq!(out.data[i], a.data[i] & b.data[i]);
    }
}

#[test]
fn bundle_ignores_order() {
    let (a, b, c) = (hv("o1"), hv("o2"), hv("o3"));
    let x = bundle(&[a.clone(), b.clone(), c.clone()]);
    let y = bundle(&[c, a, b]);
    assert_eq!(x.data, y.data);
}

#[test]
fn bundle_short_vector_votes_only_its_bits() {
    let short = Hypervector { data: vec![0xff], concept_id: String::new(), source_text: String::new() };
    let out = bundle(&[short]);
    assert_eq!(out.data.len(), PACKED_BYTES);
    assert_eq!(out.data[0], 0xff);
    assert!(out.data[1..].iter().all(|&b| b == 0));
}

#[test]
fn compress_known_threshold() {
    let vs = [hv("a"), hv("b"), hv("c")];
    let c0 = compress_mp4c(&vs, 0);
    assert_eq!(c0.data, bundle(&vs).data);
    assert_eq!(c0.concept_id, "compress_mp4c");
    let c1 = compress_mp4c(&vs, 1);
    assert_eq!(&c1.data[..4], &[64, 0, 140, 0]);
}

#[test]
fn compress_higher_threshold_is_sparser() {
    let vs = [hv("s1"), hv("s2"), hv("s3"), hv("s4"), hv("s5"), hv("s6"), hv("s7")];
    let lo = compress_mp4c(&vs, -1);
    let hi = compress_mp4c(&vs, 3);
    for i in 0..PACKED_BYTES {
        assert_eq!(hi.data[i] & !lo.data[i], 0);
    }
}

#[test]
fn compress_of_nothing_is_zero_vector() {
    let c = compress_mp4c(&[], 5);
    assert_eq!(c.data, hv("zero").data);
}
