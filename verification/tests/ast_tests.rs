use hca::ast::{ASTNode, CognitiveEngine};
use hca::bubble::{MemoryTier, UnifiedKnowledgeBubble};
use hca::bundle::bundle;
use hca::hypervector::Hypervector;

#[test]
fn ast_sizes() {
    let elegant = ASTNode::tree("add", ASTNode::atom("x"), ASTNode::atom("y"));
    let bloated = ASTNode::tree(
        "add",
        ASTNode::tree("add", ASTNode::atom("x"), ASTNode::atom("0")),
        ASTNode::atom("y"),
    );
    assert_eq!(ASTNode::atom("x").get_size(), 1);
    assert_eq!(elegant.get_size(), 3);
    assert_eq!(bloated.get_size(), 5);
}

#[test]
fn encode_leaf_is_named_vector() {
    let hv = CognitiveEngine::<()>::encode_ast(&ASTNode::atom("x"));
    assert_eq!(hv.data, Hypervector::from_string("x", None).data);
    assert_eq!(hv.concept_id, "x");
}

#[test]
fn encode_tree_binds_operator_with_bundle() {
    let t = ASTNode::tree("add", ASTNode::atom("x"), ASTNode::atom("y"));
    let hv = CognitiveEngine::<()>::encode_ast(&t);
    let op = Hypervector::from_string("add", Some("add"));
    let l = Hypervector::from_string("x", Some("x"));
    let r = Hypervector::from_string("y", Some("y")).permute(1);
    let expected = op.bind(&bundle(&[l, r]));
    assert_eq!(hv.data, expected.data);
    assert_eq!(hv.concept_id, "bound_add_bundle");
    assert_eq!(hv.source_text, "add");
}

#[test]
fn learn_fact_stores_bound_triple() {
    let mut bubble: UnifiedKnowledgeBubble<u8> = UnifiedKnowledgeBubble::new();
    {
        let mut engine = CognitiveEngine::new(&mut bubble);
        engine.learn_fact("Rust", "is", "Fast", 7);
    }
    let t = bubble.semantic_memory.get("SPO:Rust_is_Fast").unwrap();
    let expected = Hypervector::from_string("Rust", None)
        .bind(&Hypervector::from_string("is", None))
        .bind(&Hypervector::from_string("Fast", None));
    assert_eq!(t.hv.data, expected.data);
    assert_eq!(t.tier, MemoryTier::Semantic);
    assert_eq!(t.place, 7);
    assert!(t.task_context.is_none());
}

#[test]
fn learned_fact_is_named_by_binding() {
    let mut bubble: UnifiedKnowledgeBubble<u8> = UnifiedKnowledgeBubble::new();
    CognitiveEngine::new(&mut bubble).learn_fact("Rust", "is", "Fast", 0);
    let t = bubble.semantic_memory.get("SPO:Rust_is_Fast").unwrap();
    assert_eq!(t.hv.concept_id, "bound_bound_Rust_is_Fast");
    assert_eq!(t.hv.source_text, "Rust");
}
