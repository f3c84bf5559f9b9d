use hca::bubble::{MemoryTier, MemoryTrace, UnifiedKnowledgeBubble};
use hca::bundle::bundle;
use hca::hypervector::Hypervector;

fn hv(t: &str) -> Hypervector {
    Hypervector::from_string(t, None)
}

#[test]
fn set_task_creates_vector_once() {
    let mut b: UnifiedKnowledgeBubble<u32> = UnifiedKnowledgeBubble::new();
    b.set_task("physics");
    assert_eq!(b.active_task.as_deref(), Some("physics"));
    let t = b.task_vectors.get("physics").unwrap();
    assert_eq!(t.data, hv("task_physics").data);
    assert_eq!(&t.data[..6], &[200, 191, 40, 40, 240, 165]);
    b.set_task("programming");
    b.set_task("physics");
    assert_eq!(b.task_vectors.len(), 2);
    assert_eq!(b.active_task.as_deref(), Some("physics"));
}

#[test]
fn ingest_without_task() {
    let mut b: UnifiedKnowledgeBubble<u32> = UnifiedKnowledgeBubble::new();
    let c = b.ingest("Quantum Mechanics", 3);
    assert_eq!(c, "Quantum Mechanics");
    assert_eq!(b.episodic_buffer.len(), 1);
    let t = &b.episodic_buffer[0];
    assert_eq!(t.hv.data, hv("Quantum Mechanics").data);
    assert_eq!(t.tier, MemoryTier::Episodic);
    assert!(t.task_context.is_none());
    assert_eq!(t.place, 3);
}

#[test]
fn ingest_under_task_binds_and_names() {
    let mut b: UnifiedKnowledgeBubble<u32> = UnifiedKnowledgeBubble::new();
    b.set_task("physics");
    let c = b.ingest("Quantum Mechanics and Relativity", 0);
    assert_eq!(c, "physics:Quantum Mechanics an");
    let t = &b.episodic_buffer[0];
    assert_eq!(t.hv.data, hv("Quantum Mechanics and Relativity").bind(&hv("task_physics")).data);
    assert_eq!(t.task_context.as_deref(), Some("physics"));
    let short = b.ingest("Rust", 0);
    assert_eq!(short, "physics:Rust");
}

#[test]
fn consolidate_groups_by_concept() {
    let mut b: UnifiedKnowledgeBubble<u32> = UnifiedKnowledgeBubble::new();
    b.ingest("alpha", 1);
    b.ingest("beta", 2);
    b.ingest("alpha", 3);
    b.consolidate(|buf: &Vec<MemoryTrace<u32>>, m: &Vec<usize>| m.iter().map(|&i| buf[i].place).sum());
    assert!(b.episodic_buffer.is_empty());
    assert_eq!(b.semantic_memory.len(), 2);
    let a = b.semantic_memory.get("alpha").unwrap();
    assert_eq!(a.place, 4);
    assert_eq!(a.tier, MemoryTier::Semantic);
    assert_eq!(a.hv.concept_id, "alpha");
    assert_eq!(a.hv.data, bundle(&[hv("alpha"), hv("alpha")]).data);
    assert_eq!(a.hv.data, hv("alpha").data);
    let be = b.semantic_memory.get("beta").unwrap();
    assert_eq!(be.place, 2);
    assert_eq!(b.semantic_memory.name_at(0), "alpha");
    assert_eq!(b.semantic_memory.name_at(1), "beta");
}

#[test]
fn consolidate_replaces_old_semantic_trace() {
    let mut b: UnifiedKnowledgeBubble<u32> = UnifiedKnowledgeBubble::new();
    b.ingest("gamma", 1);
    b.consolidate(|_b: &Vec<MemoryTrace<u32>>, m: &Vec<usize>| m.len() as u32);
    b.ingest("gamma", 1);
    b.ingest("gamma", 1);
    b.consolidate(|_b: &Vec<MemoryTrace<u32>>, m: &Vec<usize>| m.len() as u32);
    assert_eq!(b.semantic_memory.len(), 1);
    assert_eq!(b.semantic_memory.get("gamma").unwrap().place, 2);
}

#[test]
fn single_step_sequence_recalls_exactly() {
    let mut b: UnifiedKnowledgeBubble<u32> = UnifiedKnowledgeBubble::new();
    b.ingest_sequence("one", &["fn"]);
    let step = b.execute_procedure("one", 0).unwrap();
    assert_eq!(step.data, hv("fn").data);
    assert!(b.execute_procedure("one", 1).is_none());
    assert!(b.execute_procedure("missing", 0).is_none());
}

#[test]
fn sequence_steps_resonate() {
    let mut b: UnifiedKnowledgeBubble<u32> = UnifiedKnowledgeBubble::new();
    b.ingest_sequence("rust_main", &["fn", "main", "()", "{"]);
    let (stored, len) = b.procedural_memory.get("rust_main").unwrap();
    assert_eq!(*len, 4);
    assert_eq!(stored.concept_id, "rust_main");
    let step0 = b.execute_procedure("rust_main", 0).unwrap();
    let d_fn = step0.hamming_distance(&hv("fn"));
    let d_main = step0.hamming_distance(&hv("main"));
    assert!(d_fn < d_main);
    assert_eq!(step0.concept_id, "bound_rust_main_pos_0");
}

#[test]
fn empty_sequence_has_no_steps() {
    let mut b: UnifiedKnowledgeBubble<u32> = UnifiedKnowledgeBubble::new();
    b.ingest_sequence("none", &[]);
    assert!(b.execute_procedure("none", 0).is_none());
    assert_eq!(b.procedural_memory.get("none").unwrap().0.data, hv("zero").data);
    assert_eq!(b.procedural_memory.get("none").unwrap().0.source_text, "zero");
    b.ingest_sequence("some", &["a"]);
    assert_eq!(b.procedural_memory.get("some").unwrap().0.source_text, "");
}

#[test]
fn query_vector_binds_known_task() {
    let mut b: UnifiedKnowledgeBubble<u32> = UnifiedKnowledgeBubble::new();
    b.set_task("physics");
    let q = b.query_vector("force", Some("physics"));
    assert_eq!(q.data, hv("force").bind(&hv("task_physics")).data);
    let plain = b.query_vector("force", Some("unknown"));
    assert_eq!(plain.data, hv("force").data);
    assert_eq!(b.query_vector("force", None).data, hv("force").data);
}

#[test]
fn lone_trace_consolidates_unchanged() {
    let mut b: UnifiedKnowledgeBubble<u32> = UnifiedKnowledgeBubble::new();
    b.ingest("solo", 3);
    b.ingest("pair", 4);
    b.ingest("pair", 5);
    b.consolidate(|_buf: &Vec<MemoryTrace<u32>>, m: &Vec<usize>| m.len() as u32);
    let t = b.semantic_memory.get("solo").unwrap();
    assert_eq!(t.hv.data, hv("solo").data);
    assert_eq!(t.place, 1);
}

#[test]
fn sweep_forgets_and_replaces_places() {
    let mut b: UnifiedKnowledgeBubble<u32> = UnifiedKnowledgeBubble::new();
    b.ingest("one", 1);
    b.ingest("two", 2);
    b.ingest("three", 3);
    b.consolidate(|_buf: &Vec<MemoryTrace<u32>>, _m: &Vec<usize>| 0);
    let removed = b.sweep_semantic(&vec![None, Some(20), Some(30)]);
    assert_eq!(removed, 1);
    assert!(b.semantic_memory.get("one").is_none());
    assert_eq!(b.semantic_memory.len(), 2);
    assert_eq!(b.semantic_memory.name_at(0), "two");
    assert_eq!(b.semantic_memory.get("two").unwrap().place, 20);
    assert_eq!(b.semantic_memory.get("three").unwrap().place, 30);
    assert_eq!(b.semantic_memory.get("three").unwrap().hv.data, hv("three").data);
}
