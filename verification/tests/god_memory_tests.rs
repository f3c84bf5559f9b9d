use hca::bubble::MemoryTrace;
use hca::god_memory::UnifiedKnowledgeBubble;
use hca::godnode::{bind, from_string};
use hca::bundle::compress_mp4c;

#[test]
fn god_set_task_and_ingest() {
    let mut b: UnifiedKnowledgeBubble<u32> = UnifiedKnowledgeBubble::new();
    let t = b.set_task("physics");
    assert_eq!(t.data, from_string("task_physics", None).data);
    let c = b.ingest("Quantum Mechanics and Relativity", 1);
    assert_eq!(c, "physics:Quantum Mechanics an");
    let tr = &b.episodic_buffer[0];
    assert_eq!(tr.hv.data, bind(&from_string("Quantum Mechanics and Relativity", None), &t).data);
}

#[test]
fn god_consolidate_dedups_index() {
    let mut b: UnifiedKnowledgeBubble<u32> = UnifiedKnowledgeBubble::new();
    b.ingest("alpha beta", 1);
    b.ingest("gamma", 2);
    b.ingest("alpha beta", 3);
    let placed = b.consolidate(|_buf: &Vec<MemoryTrace<u32>>, m: &Vec<usize>| m.len() as u32);
    assert_eq!(placed, vec![0, 1]);
    assert!(b.episodic_buffer.is_empty());
    assert_eq!(b.semantic_index.len(), 2);
    assert_eq!(b.semantic_index[0].0.concept_id, "alpha beta");
    assert_eq!(b.semantic_index[0].1, 2);
    let expected = compress_mp4c(&[from_string("alpha beta", None), from_string("alpha beta", None)], 0);
    assert_eq!(b.semantic_index[0].0.data, expected.data);
    b.ingest("gamma", 9);
    let placed = b.consolidate(|_buf: &Vec<MemoryTrace<u32>>, m: &Vec<usize>| 10 + m.len() as u32);
    assert_eq!(placed, vec![1]);
    assert_eq!(b.semantic_index.len(), 2);
    assert_eq!(b.semantic_index[1].1, 11);
}

#[test]
fn god_retrieve_ranks_resonant_entries() {
    let mut b: UnifiedKnowledgeBubble<u32> = UnifiedKnowledgeBubble::new();
    b.ingest("the king ruled", 0);
    b.ingest("xylophone music", 0);
    b.consolidate(|_buf: &Vec<MemoryTrace<u32>>, _m: &Vec<usize>| 0);
    let hits = b.retrieve("the king ruled", None, 5);
    assert_eq!(hits[0], (0, 0));
    assert!(hits.iter().all(|h| h.0 != 1 || h.1 <= 3932));
    let filtered = b.retrieve("the king ruled", Some("history"), 5);
    assert!(filtered.iter().all(|h| h.1 <= 3932));
}

#[test]
fn god_learn_fact_appends() {
    let mut b: UnifiedKnowledgeBubble<u32> = UnifiedKnowledgeBubble::new();
    let key = b.learn_fact("GodNode", "is", "Operational", 4);
    assert_eq!(key, "SPO:GodNode_is_Operational");
    assert_eq!(b.semantic_index.len(), 1);
    let expected = bind(&bind(&from_string("GodNode", None), &from_string("is", None)), &from_string("Operational", None));
    assert_eq!(b.semantic_index[0].0.data, expected.data);
    assert_eq!(b.semantic_index[0].1, 4);
}

#[test]
fn god_sequences() {
    let mut b: UnifiedKnowledgeBubble<u32> = UnifiedKnowledgeBubble::new();
    b.ingest_sequence("one", &["step"]);
    assert_eq!(b.execute_procedure("one", 0).unwrap().data, from_string("step", None).data);
    assert!(b.execute_procedure("one", 1).is_none());
}

#[test]
fn god_fact_names_the_triple() {
    let mut b: UnifiedKnowledgeBubble<u32> = UnifiedKnowledgeBubble::new();
    b.learn_fact("GodNode", "is", "Operational", 0);
    assert_eq!(b.semantic_index[0].0.concept_id, "bound(bound(GodNode,is),Operational)");
    assert_eq!(b.semantic_index[0].0.source_text, "GodNode");
}

#[test]
fn god_sequence_source_texts() {
    let mut b: UnifiedKnowledgeBubble<u32> = UnifiedKnowledgeBubble::new();
    b.ingest_sequence("empty", &[]);
    b.ingest_sequence("two", &["fn", "main"]);
    let step = b.execute_procedure("two", 1).unwrap();
    assert_eq!(step.source_text, "");
    assert_eq!(step.concept_id, "bound(two,pos_1)");
    assert!(b.execute_procedure("empty", 0).is_none());
}

#[test]
fn god_ingest_keeps_source_text() {
    let mut b: UnifiedKnowledgeBubble<u32> = UnifiedKnowledgeBubble::new();
    b.set_task("t");
    b.ingest("hello world", 0);
    assert_eq!(b.episodic_buffer[0].hv.source_text, "hello world");
}

#[test]
fn god_lone_trace_is_found_first() {
    let mut b: UnifiedKnowledgeBubble<u32> = UnifiedKnowledgeBubble::new();
    b.ingest("zebra crossing", 0);
    b.ingest("lunar eclipse tonight", 0);
    b.ingest("apple pie recipe", 0);
    b.consolidate(|_buf: &Vec<MemoryTrace<u32>>, _m: &Vec<usize>| 0);
    assert_eq!(b.semantic_index[1].0.data, from_string("lunar eclipse tonight", None).data);
    let hits = b.retrieve("lunar eclipse tonight", None, 1);
    assert_eq!(hits, vec![(1, 0)]);
}

#[test]
fn god_sweep_keeps_marked_entries_in_order() {
    let mut b: UnifiedKnowledgeBubble<u32> = UnifiedKnowledgeBubble::new();
    b.ingest("first entry", 0);
    b.ingest("second entry", 0);
    b.ingest("third entry", 0);
    b.consolidate(|_buf: &Vec<MemoryTrace<u32>>, _m: &Vec<usize>| 0);
    let dropped = b.sweep_index(&vec![Some(7), None, Some(9)]);
    assert_eq!(dropped, vec!["second entry".to_string()]);
    assert_eq!(b.semantic_index.len(), 2);
    assert_eq!(b.semantic_index[0].0.concept_id, "first entry");
    assert_eq!(b.semantic_index[0].1, 7);
    assert_eq!(b.semantic_index[1].0.concept_id, "third entry");
    assert_eq!(b.semantic_index[1].0.data, from_string("third entry", None).data);
    assert_eq!(b.semantic_index[1].1, 9);
}

#[test]
fn god_task_scoped_text_is_found_under_its_task() {
    let mut b: UnifiedKnowledgeBubble<u32> = UnifiedKnowledgeBubble::new();
    b.set_task("physics");
    b.ingest("Newton's second law", 0);
    b.consolidate(|_buf: &Vec<MemoryTrace<u32>>, _m: &Vec<usize>| 0);
    let hits = b.retrieve("Newton's second law", Some("physics"), 5);
    assert_eq!(hits[0], (0, 0));
    let plain = b.retrieve("Newton's second law", None, 5);
    assert!(plain.is_empty() || plain[0].1 > 0);
}
