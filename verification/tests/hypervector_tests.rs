use hca::hypervector::{analogy, Hypervector};
use hca::prng::{xorshift64, xorshift_fill};
use hca::{DIMS, PACKED_BYTES};

fn bit(data: &[u8], k: usize) -> bool {
    (data[k / 8] >> (7 - k % 8)) & 1 == 1
}

fn single_bit(k: usize) -> Hypervector {
    let mut data = vec![0u8; PACKED_BYTES];
    data[k / 8] |= 0x80 >> (k % 8);
    Hypervector { data, concept_id: "probe".to_string(), source_text: String::new() }
}

#[test]
fn xorshift_known_step() {
    let mut state: u64 = 1;
    let b = xorshift64(&mut state);
    assert_eq!(state, 1082269761);
    assert_eq!(b, 65);
}

#[test]
fn xorshift_fill_matches_steps() {
    let out = xorshift_fill(1, 3);
    let mut s: u64 = 1;
    let expected: Vec<u8> = (0..3).map(|_| xorshift64(&mut s)).collect();
    assert_eq!(out, expected);
}

#[test]
fn from_string_known_bytes() {
    let hv = Hypervector::from_string("hello", None);
    assert_eq!(hv.data.len(), PACKED_BYTES);
    assert_eq!(&hv.data[..6], &[200, 13, 173, 8, 134, 251]);
    assert_eq!(hv.concept_id, "hello");
    assert_eq!(hv.source_text, "hello");
}

#[test]
fn from_string_empty_text() {
    let hv = Hypervector::from_string("", None);
    assert_eq!(&hv.data[..6], &[66, 0, 54, 170, 145, 48]);
    assert_eq!(hv.concept_id, "");
}

#[test]
fn from_string_names() {
    let long = "abcdefghijklmnopqrstuvwxyz".repeat(3);
    let hv = Hypervector::from_string(&long, None);
    assert_eq!(hv.concept_id, long.chars().take(50).collect::<String>());
    let named = Hypervector::from_string("hello", Some("greeting"));
    assert_eq!(named.concept_id, "greeting");
    assert_eq!(named.data, hv_data("hello"));
}

fn hv_data(t: &str) -> Vec<u8> {
    Hypervector::from_string(t, None).data
}

#[test]
fn from_string_deterministic() {
    assert_eq!(hv_data("same text"), hv_data("same text"));
    assert_ne!(hv_data("same text"), hv_data("other text"));
}

#[test]
fn bind_is_xor_and_named() {
    let a = Hypervector::from_string("a", None);
    let b = Hypervector::from_string("b", None);
    let ab = a.bind(&b);
    for i in 0..PACKED_BYTES {
        assert_eq!(ab.data[i], a.data[i] ^ b.data[i]);
    }
    assert_eq!(ab.concept_id, "bound_a_b");
    assert_eq!(ab.source_text, "a");
}

#[test]
fn bind_uses_common_length() {
    let a = Hypervector { data: vec![1, 2, 3], concept_id: "x".into(), source_text: String::new() };
    let b = Hypervector { data: vec![3, 2], concept_id: "y".into(), source_text: String::new() };
    assert_eq!(a.bind(&b).data, vec![2, 0]);
}

#[test]
fn bind_twice_unbinds() {
    let a = Hypervector::from_string("apple", None);
    let k = Hypervector::from_string("key", None);
    assert_eq!(a.bind(&k).bind(&k).data, a.data);
}

#[test]
fn bind_commutes_on_data() {
    let a = Hypervector::from_string("left", None);
    let b = Hypervector::from_string("right", None);
    assert_eq!(a.bind(&b).data, b.bind(&a).data);
}

#[test]
fn analogy_recovers_exactly() {
    let a = Hypervector::from_string("man", None);
    let b = Hypervector::from_string("king", None);
    let out = analogy(&a, &b, &a);
    assert_eq!(out.data, b.data);
    assert_eq!(out.concept_id, "bound_bound_king_man_man");
}

#[test]
fn permute_moves_single_bits() {
    let p = single_bit(0).permute(5);
    let set: Vec<usize> = (0..DIMS).filter(|&k| bit(&p.data, k)).collect();
    assert_eq!(set, vec![8187]);
    let p = single_bit(0).permute(8);
    let set: Vec<usize> = (0..DIMS).filter(|&k| bit(&p.data, k)).collect();
    assert_eq!(set, vec![8]);
    let p = single_bit(0).permute(-3);
    let set: Vec<usize> = (0..DIMS).filter(|&k| bit(&p.data, k)).collect();
    assert_eq!(set, vec![8179]);
}

#[test]
fn permute_full_turn_is_identity() {
    let v = Hypervector::from_string("turn", None);
    assert_eq!(v.permute(8192).data, v.data);
    assert_eq!(v.permute(0).data, v.data);
    assert_eq!(v.permute(-8192 * 3).data, v.data);
}

#[test]
fn permute_then_inverse_restores() {
    let v = Hypervector::from_string("test_vector", None);
    for shift in [0i64, 1, 5, 7, 8, 9, 4096, 8191, 8192, 12345, -1, -5, -8200, i64::MAX, i64::MIN] {
        let back = v.permute(shift).inverse_permute(shift);
        assert_eq!(back.data, v.data, "shift {}", shift);
        assert_eq!(v.hamming_distance(&back), 0);
    }
}

#[test]
fn inverse_then_permute_restores() {
    let v = Hypervector::from_string("another", None);
    for shift in [3i64, 64, -77, 100000] {
        assert_eq!(v.inverse_permute(shift).permute(shift).data, v.data);
    }
}

#[test]
fn permute_keeps_name_and_cuts_to_length() {
    let mut v = Hypervector::from_string("name", Some("kept"));
    v.data.extend_from_slice(&[1, 2, 3]);
    let p = v.permute(11);
    assert_eq!(p.data.len(), PACKED_BYTES);
    assert_eq!(p.concept_id, "kept");
    assert_eq!(p.source_text, "name");
}

#[test]
fn hamming_known_value() {
    let h = Hypervector::from_string("hello", None);
    let w = Hypervector::from_string("world", None);
    assert_eq!(h.hamming_distance(&w), 4087);
}

#[test]
fn hamming_self_and_symmetry() {
    let h = Hypervector::from_string("x1", None);
    let w = Hypervector::from_string("x2", None);
    assert_eq!(h.hamming_distance(&h), 0);
    assert_eq!(h.hamming_distance(&w), w.hamming_distance(&h));
}

#[test]
fn hamming_kept_by_binding() {
    let a = Hypervector::from_string("p", None);
    let b = Hypervector::from_string("q", None);
    let c = Hypervector::from_string("r", None);
    assert_eq!(a.bind(&c).hamming_distance(&b.bind(&c)), a.hamming_distance(&b));
}

#[test]
fn hamming_kept_by_permutation() {
    let a = Hypervector::from_string("p", None);
    let b = Hypervector::from_string("q", None);
    for s in [1i64, 13, -9, 5000] {
        assert_eq!(a.permute(s).hamming_distance(&b.permute(s)), a.hamming_distance(&b));
    }
}

#[test]
fn hamming_over_common_length() {
    let a = Hypervector { data: vec![0xff, 0x0f], concept_id: String::new(), source_text: String::new() };
    let b = Hypervector { data: vec![0x00], concept_id: String::new(), source_text: String::new() };
    assert_eq!(a.hamming_distance(&b), 8);
}

#[test]
fn base64_known_text() {
    let hv = Hypervector { data: vec![0, 1, 2, 253, 254, 255], concept_id: String::new(), source_text: String::new() };
    assert_eq!(hv.data_base64(), "AAEC/f7/");
}

#[test]
fn base64_round_trip() {
    let hv = Hypervector::from_string("persist me", None);
    let text = hv.data_base64();
    let back = Hypervector::from_base64(&text, hv.concept_id.clone(), hv.source_text.clone()).unwrap();
    assert_eq!(back.data, hv.data);
    assert_eq!(back.concept_id, "persist me");
}

#[test]
fn base64_invalid_is_none() {
    assert!(Hypervector::from_base64("not base64!!", String::new(), String::new()).is_none());
}
