use hca::ast::ASTNode;
use hca::bundle::bundle;
use hca::godnode::{
    bind, book_concept, book_task, consolidation_threshold, encode_ast, from_string, ingest_concept,
    new_agent, paragraph_seed, paragraphs, rank_index, upsert_index, RESONANCE_MAX_DISTANCE,
};
use hca::hypervector::Hypervector;
use hca::PACKED_BYTES;

fn atomic(t: &str) -> Hypervector {
    Hypervector::atomic_from_str(t, t)
}

#[test]
fn trigram_encoding_known_bytes() {
    let king = from_string("king", None);
    assert_eq!(&king.data[..4], &[12, 34, 202, 16]);
    assert_eq!(king.data, bundle(&[atomic("kin"), atomic("ing")]).data);
    assert_eq!(king.concept_id, "king");
    assert_eq!(king.source_text, "king");
}

#[test]
fn trigram_short_text_is_atomic() {
    let fn_hv = from_string("fn", Some("keyword"));
    assert_eq!(fn_hv.data, atomic("fn").data);
    assert_eq!(fn_hv.concept_id, "keyword");
    assert_eq!(fn_hv.data.len(), PACKED_BYTES);
}

#[test]
fn trigram_similar_words_are_closer() {
    let king = from_string("king", None);
    let queen = from_string("queen", None);
    let xylo = from_string("xylophone", None);
    let kingdom = from_string("kingdom", None);
    assert_eq!(king.hamming_distance(&queen), 4107);
    assert_eq!(king.hamming_distance(&xylo), 4149);
    assert!(king.hamming_distance(&queen) < king.hamming_distance(&xylo));
    assert_eq!(king.hamming_distance(&kingdom), 2612);
}

#[test]
fn godnode_bind_names() {
    let a = from_string("abc", None);
    let b = from_string("xyz", None);
    let ab = bind(&a, &b);
    assert_eq!(ab.concept_id, "bound(abc,xyz)");
    assert_eq!(ab.data, a.bind(&b).data);
}

#[test]
fn ingest_concept_takes_twenty_chars() {
    assert_eq!(ingest_concept("physics", "Quantum Mechanics and Relativity").as_str(), "physics:Quantum Mechanics an");
    assert_eq!(ingest_concept("t", "héllo wörld ünïcode çhars").as_str(), "t:héllo wörld ünïcode ");
}

#[test]
fn threshold_is_four_tenths() {
    assert_eq!(consolidation_threshold(0), 0);
    assert_eq!(consolidation_threshold(1), 0);
    assert_eq!(consolidation_threshold(3), 1);
    assert_eq!(consolidation_threshold(5), 2);
    assert_eq!(consolidation_threshold(7), 2);
    for n in 0..200usize {
        assert_eq!(consolidation_threshold(n), (n as f64 * 0.4) as i32);
    }
}

#[test]
fn paragraphs_split_on_blank_lines() {
    let ps = paragraphs("First para.\n\nSecond\nline.\n\n   \n\nThird");
    assert_eq!(ps, vec!["First para.".to_string(), "Second\nline.".to_string(), "Third".to_string()]);
    let expected: Vec<String> = "a\n\n\nb\n\n\n\nc".split("\n\n").filter(|p| !p.trim().is_empty()).map(|s| s.to_string()).collect();
    assert_eq!(paragraphs("a\n\n\nb\n\n\n\nc"), expected);
    assert!(paragraphs("").is_empty());
    assert!(paragraphs("\n\n \t\n\n").is_empty());
}

#[test]
fn paragraph_seed_sums_code_points() {
    assert_eq!(paragraph_seed("ab"), 97 + 98);
    assert_eq!(paragraph_seed(""), 0);
    assert_eq!(paragraph_seed("é"), 233);
}

#[test]
fn book_names() {
    assert_eq!(book_task("Physics").as_str(), "Book: Physics");
    assert_eq!(book_concept("Physics", "Newton's laws of motion describe").as_str(), "Book:Physics:Newton's laws o");
}

#[test]
fn upsert_replaces_first_match() {
    let mut index: Vec<(Hypervector, u8)> = Vec::new();
    assert_eq!(upsert_index(&mut index, (from_string("one", None), 1)), None);
    assert_eq!(upsert_index(&mut index, (from_string("two", None), 2)), None);
    assert_eq!(upsert_index(&mut index, (from_string("one", None), 3)), Some(0));
    assert_eq!(index.len(), 2);
    assert_eq!(index[0].1, 3);
}

#[test]
fn ranking_is_nearest_first_and_bounded() {
    let index: Vec<(Hypervector, u8)> = ["king", "kingdom", "xylophone", "kingly", "king"]
        .iter()
        .map(|t| (from_string(t, None), 0))
        .collect();
    let q = from_string("king", None);
    let hits = rank_index(&q, &index, 10);
    for w in hits.windows(2) {
        assert!(w[0].1 <= w[1].1);
    }
    for h in &hits {
        assert!(h.1 <= RESONANCE_MAX_DISTANCE);
        assert_eq!(h.1, q.hamming_distance(&index[h.0].0));
    }
    assert_eq!(hits[0], (0, 0));
    assert_eq!(hits[1], (4, 0));
    assert!(!hits.iter().any(|h| h.0 == 2));
    assert_eq!(rank_index(&q, &index, 1).len(), 1);
}

#[test]
fn godnode_ast_encoding() {
    let t = ASTNode::tree("add", ASTNode::atom("x"), ASTNode::atom("y"));
    let hv = encode_ast(&t);
    let expected = bind(
        &from_string("add", Some("add")),
        &bundle(&[from_string("x", Some("x")), from_string("y", Some("y")).permute(1)]),
    );
    assert_eq!(hv.data, expected.data);
    assert_eq!(hv.concept_id, "bound(add,bundle)");
    assert_eq!(hv.source_text, "add");
    assert_eq!(encode_ast(&ASTNode::atom("xyz")).concept_id, "xyz");
}

#[test]
fn godnode_agent_uses_trigrams() {
    let a: hca::agent::HDQAgent<f64> = new_agent(&["move", "jump"]);
    assert_eq!(a.actions.get("move").unwrap().data, from_string("move", None).data);
    assert_eq!(a.q_brain.data, from_string("blank_slate", None).data);
}
