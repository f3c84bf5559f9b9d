//! The memory of the "God Node" variant: episodic traces, a semantic index
//! of consolidated vectors (which the caller mirrors to disk), task vectors
//! and procedural sequences, all encoded by trigrams.

use crate::bubble::{
    concept_among, kept_positions, named_data, named_positions, opt_string_view, position_text,
    MemoryTier, MemoryTrace,
};
use crate::bundle::{compress_mp4c, datas, lemma_bundle_single, majority};
use crate::godnode::{
    bind, consolidation_threshold, first_k, from_string, ingest_concept, ngram_data, rank_hits,
    rank_index, resonant_hits, string_views, upsert_index, Hit,
};
use crate::hypervector::{atomic_data, lemma_bind_commutes, lemma_bind_self_inverse, xor_bytes, Hypervector};
use crate::permute::{lemma_permuted_len, permuted, rotation_offset};
use crate::text::{prefix_chars, push_decimal};
use crate::PACKED_BYTES;
use vstd::hash_map::StringHashMap;
use vstd::prelude::*;
use vstd::utf8::encode_utf8;

verus! {

/// The entry `upsert_index` leaves: `e` in place of the first entry with its
/// concept, or appended.
pub open spec fn upserted<P>(idx: Seq<(Hypervector, P)>, e: (Hypervector, P)) -> Seq<(Hypervector, P)> {
    if exists|j: int| 0 <= j < idx.len() && (#[trigger] idx[j]).0.concept_id@ == e.0.concept_id@ {
        let j = choose|j: int|
            0 <= j < idx.len() && (#[trigger] idx[j]).0.concept_id@ == e.0.concept_id@ && forall|k: int|
                0 <= k < j ==> (#[trigger] idx[k]).0.concept_id@ != e.0.concept_id@;
        idx.update(j, e)
    } else {
        idx.push(e)
    }
}

/// The index after putting in each of `es` in turn.
pub open spec fn upserted_all<P>(idx: Seq<(Hypervector, P)>, es: Seq<(Hypervector, P)>) -> Seq<(Hypervector, P)>
    decreases es.len(),
{
    if es.len() == 0 {
        idx
    } else {
        upserted(upserted_all(idx, es.drop_last()), es.last())
    }
}

/// The index names each concept at most once.
pub open spec fn concepts_distinct<P>(idx: Seq<(Hypervector, P)>) -> bool {
    forall|i: int, j: int| 0 <= i < j < idx.len() ==> idx[i].0.concept_id@ != idx[j].0.concept_id@
}

/// Putting one entry into an index that names each concept once keeps it
/// so.
proof fn lemma_upserted_distinct<P>(idx: Seq<(Hypervector, P)>, e: (Hypervector, P))
    requires
        concepts_distinct(idx),
    ensures
        concepts_distinct(upserted(idx, e)),
{
    if exists|j: int| 0 <= j < idx.len() && (#[trigger] idx[j]).0.concept_id@ == e.0.concept_id@ {
        let w = choose|j: int| 0 <= j < idx.len() && (#[trigger] idx[j]).0.concept_id@ == e.0.concept_id@;
        assert forall|k: int| 0 <= k < w implies (#[trigger] idx[k]).0.concept_id@ != e.0.concept_id@ by {
            assert(idx[k].0.concept_id@ != idx[w].0.concept_id@);
        }
        let j = choose|j: int|
            0 <= j < idx.len() && (#[trigger] idx[j]).0.concept_id@ == e.0.concept_id@ && forall|k: int|
                0 <= k < j ==> (#[trigger] idx[k]).0.concept_id@ != e.0.concept_id@;
        let out = idx.update(j, e);
        assert forall|a: int, b: int| 0 <= a < b < out.len() implies out[a].0.concept_id@ != out[b].0.concept_id@ by {
            assert(out[a].0.concept_id@ == idx[a].0.concept_id@);
            assert(out[b].0.concept_id@ == idx[b].0.concept_id@);
        }
    } else {
        let out = idx.push(e);
        assert forall|a: int, b: int| 0 <= a < b < out.len() implies out[a].0.concept_id@ != out[b].0.concept_id@ by {
            if b == idx.len() {
                assert(out[a] == idx[a]);
            } else {
                assert(out[a] == idx[a] && out[b] == idx[b]);
            }
        }
    }
}

/// Law: putting entries in turn into an index that names each concept once
/// keeps it so; consolidation never adds a second entry for a concept.
pub proof fn lemma_upserted_all_distinct<P>(idx: Seq<(Hypervector, P)>, es: Seq<(Hypervector, P)>)
    requires
        concepts_distinct(idx),
    ensures
        concepts_distinct(upserted_all(idx, es)),
    decreases es.len(),
{
    if es.len() > 0 {
        lemma_upserted_all_distinct(idx, es.drop_last());
        lemma_upserted_distinct(upserted_all(idx, es.drop_last()), es.last());
    }
}

/// The concepts of the traces in `buf`, each once, in order of first
/// appearance.
pub open spec fn distinct_concepts<P>(buf: Seq<MemoryTrace<P>>) -> Seq<Seq<char>>
    decreases buf.len(),
{
    if buf.len() == 0 {
        Seq::empty()
    } else {
        let r = distinct_concepts(buf.drop_last());
        if r.contains(buf.last().hv.concept_id@) {
            r
        } else {
            r.push(buf.last().hv.concept_id@)
        }
    }
}

/// `e` is the index entry consolidation makes of the traces in `buf` with
/// concept `c`: their bits kept by more than `floor(0.4 n)` net votes (`n`
/// traces), named `c`, with no source text, placed by `place_of_group`.
pub open spec fn consolidated_entry<P, F: Fn(&Vec<MemoryTrace<P>>, &Vec<usize>) -> P>(
    e: (Hypervector, P),
    buf: Vec<MemoryTrace<P>>,
    c: Seq<char>,
    place_of_group: F,
) -> bool {
    &&& e.0.data@ == majority(named_data(buf@, c), ((2 * named_positions(buf@, c).len()) / 5) as int)
    &&& e.0.concept_id@ == c
    &&& e.0.source_text@ == Seq::<char>::empty()
    &&& exists|m: Vec<usize>| m@ == named_positions(buf@, c) && #[trigger] place_of_group.ensures((&buf, &m), e.1)
}

/// Law: a concept met once is consolidated unchanged: its index entry keeps
/// the bits of its one (full-length) episodic trace, the noise floor of a
/// single trace being zero votes.
pub proof fn lemma_lone_trace_kept<P, F: Fn(&Vec<MemoryTrace<P>>, &Vec<usize>) -> P>(
    e: (Hypervector, P),
    buf: Vec<MemoryTrace<P>>,
    c: Seq<char>,
    place_of_group: F,
)
    requires
        consolidated_entry(e, buf, c, place_of_group),
        named_positions(buf@, c).len() == 1,
        buf@[named_positions(buf@, c)[0] as int].hv.data@.len() == PACKED_BYTES,
    ensures
        e.0.data@ == buf@[named_positions(buf@, c)[0] as int].hv.data@,
{
    let d = buf@[named_positions(buf@, c)[0] as int].hv.data@;
    assert(named_data(buf@, c) =~= seq![d]);
    assert((2 * named_positions(buf@, c).len()) / 5 == 0);
    lemma_bundle_single(d);
}

/// The text of a task's vector: `task_` followed by the task's name.
pub open spec fn task_text(name: Seq<char>) -> Seq<char> {
    "task_"@ + name
}

/// The role vector of position `i` in this variant: the trigram vector of
/// `pos_<i>` permuted by `i`.
pub open spec fn role_data(i: nat) -> Seq<u8> {
    permuted(ngram_data(position_text(i)), rotation_offset(i as int))
}

/// The bound pairs of a sequence: role `i` bound with the trigram vector of
/// step `i`.
pub open spec fn role_fillers(steps: Seq<Seq<char>>) -> Seq<Seq<u8>> {
    Seq::new(steps.len(), |i: int| xor_bytes(role_data(i as nat), ngram_data(steps[i])))
}

/// The bytes a sequence is remembered by (the vector of `zero` when empty).
pub open spec fn sequence_data(steps: Seq<Seq<char>>) -> Seq<u8> {
    if steps.len() == 0 {
        atomic_data(encode_utf8("zero"@))
    } else {
        majority(role_fillers(steps), 0)
    }
}

/// The role vector for position `i`.
fn role(i: usize) -> (hv: Hypervector)
    requires
        i < 0x8000_0000,
    ensures
        hv.data@ == role_data(i as nat),
        hv.concept_id@ == prefix_chars(position_text(i as nat), 50),
{
    let mut label = String::from_str("pos_");
    push_decimal(&mut label, i);
    proof {
        lemma_decimal_short(i as nat);
        reveal_strlit("pos_");
    }
    let hv = from_string(label.as_str(), None);
    hv.permute(i as i64)
}

/// Law: every step of a sequence, of any length, is held under the role of
/// its own position: unbinding the role of position `i` (the role that
/// recalling step `i` unbinds) from the pair stored for step `i` gives that
/// step's trigram vector back exactly.
pub proof fn lemma_step_pair_recalls(steps: Seq<Seq<char>>, i: int)
    requires
        0 <= i < steps.len(),
    ensures
        xor_bytes(role_fillers(steps)[i], role_data(i as nat)) == ngram_data(steps[i]),
{
    let r = role_data(i as nat);
    let f = ngram_data(steps[i]);
    lemma_permuted_len(ngram_data(position_text(i as nat)), rotation_offset(i));
    lemma_bind_commutes(r, f);
    lemma_bind_self_inverse(f, r);
}

/// Law: a one-step sequence recalls its step exactly: unbinding the role from
/// the stored bundle gives back the step's trigram vector.
pub proof fn lemma_single_step_recall(step: Seq<char>)
    ensures
        xor_bytes(sequence_data(seq![step]), role_data(0)) == ngram_data(step),
{
    let r = role_data(0);
    let f = ngram_data(step);
    lemma_permuted_len(ngram_data(position_text(0)), rotation_offset(0));
    assert(role_fillers(seq![step]) =~= seq![xor_bytes(r, f)]);
    lemma_bundle_single(xor_bytes(r, f));
    lemma_bind_commutes(r, f);
    lemma_bind_self_inverse(f, r);
}

/// Ten to the power `k`.
pub open spec fn pow10(k: nat) -> nat
    decreases k,
{
    if k == 0 {
        1
    } else {
        10 * pow10((k - 1) as nat)
    }
}

/// A number below `10^k` has at most `k` digits.
proof fn lemma_decimal_len_bound(n: nat, k: nat)
    requires
        k >= 1,
        n < pow10(k),
    ensures
        crate::text::decimal(n).len() <= k,
    decreases n,
{
    if n >= 10 {
        if k == 1 {
            assert(pow10(1) == 10 * pow10(0));
        }
        assert(pow10(k) == 10 * pow10((k - 1) as nat));
        lemma_decimal_len_bound(n / 10, (k - 1) as nat);
    }
}

/// The numeral of a number below 2^31 has at most ten digits.
proof fn lemma_decimal_short(n: nat)
    requires
        n < 0x8000_0000,
    ensures
        crate::text::decimal(n).len() <= 10,
{
    reveal_with_fuel(pow10, 11);
    assert(pow10(10) == 10_000_000_000);
    lemma_decimal_len_bound(n, 10);
}

/// What `upsert_index` does is `upserted`.
proof fn lemma_upsert_spec<P>(old_idx: Seq<(Hypervector, P)>, new_idx: Seq<(Hypervector, P)>, e: (Hypervector, P), r: Option<usize>)
    requires
        match r {
            Some(i) => {
                &&& i < old_idx.len()
                &&& old_idx[i as int].0.concept_id@ == e.0.concept_id@
                &&& forall|j: int| 0 <= j < i ==> (#[trigger] old_idx[j]).0.concept_id@ != e.0.concept_id@
                &&& new_idx == old_idx.update(i as int, e)
            },
            None => {
                &&& forall|j: int| 0 <= j < old_idx.len() ==> (#[trigger] old_idx[j]).0.concept_id@ != e.0.concept_id@
                &&& new_idx == old_idx.push(e)
            },
        },
    ensures
        new_idx == upserted(old_idx, e),
{
    match r {
        Some(i) => {
            assert(old_idx[i as int].0.concept_id@ == e.0.concept_id@);
            let j = choose|j: int|
                0 <= j < old_idx.len() && (#[trigger] old_idx[j]).0.concept_id@ == e.0.concept_id@ && forall|k: int|
                    0 <= k < j ==> (#[trigger] old_idx[k]).0.concept_id@ != e.0.concept_id@;
            assert(j == i as int) by {
                if j < i {
                    assert(old_idx[j].0.concept_id@ != e.0.concept_id@);
                }
                if j > i {
                    assert(old_idx[i as int].0.concept_id@ != e.0.concept_id@);
                }
            }
        },
        None => {},
    }
}

/// Trigram-encoded memory: episodic traces, a semantic index of
/// (vector, place) entries, sequences by name, task vectors by task name, and
/// the active task. `P` is what a trace records of its place.
pub struct UnifiedKnowledgeBubble<P> {
    pub episodic_buffer: Vec<MemoryTrace<P>>,
    pub semantic_index: Vec<(Hypervector, P)>,
    pub procedural_memory: StringHashMap<(Hypervector, usize)>,
    pub task_vectors: StringHashMap<Hypervector>,
    pub active_task: Option<String>,
}

/// `hv` is the vector made for task `name`: the trigram vector of
/// `task_<name>`.
pub open spec fn is_task_vector(hv: Hypervector, name: Seq<char>) -> bool {
    &&& hv.data@ == ngram_data(task_text(name))
    &&& hv.concept_id@ == prefix_chars(task_text(name), 50)
    &&& hv.source_text@ == task_text(name)
}

impl<P: Copy> UnifiedKnowledgeBubble<P> {
    /// Episodic traces and index vectors are at most 1024 bytes, and every
    /// stored sequence has fewer than 2^31 steps.
    pub open spec fn wf(&self) -> bool {
        &&& forall|t: int|
            0 <= t < self.episodic_buffer@.len() ==> (#[trigger] self.episodic_buffer@[t]).hv.data@.len()
                <= PACKED_BYTES
        &&& forall|k: Seq<char>|
            #![trigger self.procedural_memory@[k]]
            self.procedural_memory@.contains_key(k) ==> self.procedural_memory@[k].1 < 0x8000_0000
    }

    /// The task whose vector binds new traces, if there is one.
    pub open spec fn binding_task(&self) -> Option<Seq<char>> {
        match self.active_task {
            Some(t) => if self.task_vectors@.contains_key(t@) {
                Some(t@)
            } else {
                None
            },
            None => None,
        }
    }

    /// An empty memory with no active task.
    pub fn new() -> (b: UnifiedKnowledgeBubble<P>)
        ensures
            b.wf(),
            b.episodic_buffer@.len() == 0,
            b.semantic_index@.len() == 0,
            b.procedural_memory@ == Map::<Seq<char>, (Hypervector, usize)>::empty(),
            b.task_vectors@ == Map::<Seq<char>, Hypervector>::empty(),
            b.active_task is None,
    {
        UnifiedKnowledgeBubble {
            episodic_buffer: Vec::new(),
            semantic_index: Vec::new(),
            procedural_memory: StringHashMap::new(),
            task_vectors: StringHashMap::new(),
            active_task: None,
        }
    }

    /// Makes `task_name` the active task, creating its vector the first time,
    /// and returns (a copy of) the task's vector, for keeping on disk.
    pub fn set_task(&mut self, task_name: &str) -> (hv: Hypervector)
        requires
            old(self).wf(),
            task_name@.len() < 0x7fff_fff0,
        ensures
            final(self).wf(),
            final(self).active_task matches Some(t) && t@ == task_name@,
            final(self).task_vectors@.dom() == old(self).task_vectors@.dom().insert(task_name@),
            forall|k: Seq<char>| #![trigger final(self).task_vectors@[k]] old(self).task_vectors@.contains_key(k)
                ==> final(self).task_vectors@[k] == old(self).task_vectors@[k],
            !old(self).task_vectors@.contains_key(task_name@) ==> is_task_vector(
                final(self).task_vectors@[task_name@],
                task_name@,
            ),
            hv.data@ == final(self).task_vectors@[task_name@].data@,
            hv.concept_id@ == final(self).task_vectors@[task_name@].concept_id@,
            hv.source_text@ == final(self).task_vectors@[task_name@].source_text@,
            final(self).episodic_buffer@ == old(self).episodic_buffer@,
            final(self).semantic_index@ == old(self).semantic_index@,
            final(self).procedural_memory == old(self).procedural_memory,
    {
        if !self.task_vectors.contains_key(task_name) {
            let mut text = String::from_str("task_");
            text.append(task_name);
            proof {
                reveal_strlit("task_");
            }
            let hv = from_string(text.as_str(), None);
            self.task_vectors.insert(String::from_str(task_name), hv);
        }
        assert(self.task_vectors@.dom() =~= old(self).task_vectors@.dom().insert(task_name@));
        self.active_task = Some(String::from_str(task_name));
        self.task_vectors.get(task_name).unwrap().copy()
    }

    /// Records `text` as an episodic trace at `place` under the active task
    /// and returns its concept: the text's trigram vector, bound with the
    /// task's vector and named `<task>:<first 20 characters>` when the active
    /// task has one.
    pub fn ingest(&mut self, text: &str, place: P) -> (concept: String)
        requires
            old(self).wf(),
            text@.len() < 0x8000_0002,
        ensures
            final(self).wf(),
            final(self).episodic_buffer@.drop_last() == old(self).episodic_buffer@,
            final(self).episodic_buffer@.len() == old(self).episodic_buffer@.len() + 1,
            ({
                let t = final(self).episodic_buffer@.last();
                &&& t.hv.data@ == match old(self).binding_task() {
                    Some(k) => xor_bytes(ngram_data(text@), old(self).task_vectors@[k].data@),
                    None => ngram_data(text@),
                }
                &&& t.hv.concept_id@ == match old(self).binding_task() {
                    Some(k) => k + ":"@ + prefix_chars(text@, 20),
                    None => prefix_chars(text@, 50),
                }
                &&& t.hv.concept_id@ == concept@
                &&& t.hv.source_text@ == text@
                &&& t.tier == MemoryTier::Episodic
                &&& opt_string_view(t.task_context) == opt_string_view(old(self).active_task)
                &&& t.place == place
            }),
            final(self).semantic_index@ == old(self).semantic_index@,
            final(self).procedural_memory == old(self).procedural_memory,
            final(self).task_vectors == old(self).task_vectors,
            final(self).active_task == old(self).active_task,
    {
        let mut hv = from_string(text, None);
        match &self.active_task {
            Some(task) => {
                match self.task_vectors.get(task.as_str()) {
                    Some(task_hv) => {
                        hv = bind(&hv, task_hv);
                        hv.concept_id = ingest_concept(task.as_str(), text);
                    },
                    None => {},
                }
            },
            None => {},
        }
        let concept = hv.concept_id.clone();
        let trace = MemoryTrace {
            hv,
            tier: MemoryTier::Episodic,
            task_context: self.active_task.clone(),
            place,
        };
        self.episodic_buffer.push(trace);
        assert(self.episodic_buffer@.drop_last() =~= old(self).episodic_buffer@);
        assert(self.episodic_buffer@[self.episodic_buffer@.len() - 1].hv.data@.len() <= PACKED_BYTES);
        concept
    }
}

/// A concept is among the distinct concepts exactly when some trace has it.
proof fn lemma_distinct_concepts<P>(buf: Seq<MemoryTrace<P>>, c: Seq<char>)
    ensures
        distinct_concepts(buf).contains(c) <==> concept_among(buf, buf.len() as int, c),
    decreases buf.len(),
{
    if buf.len() > 0 {
        let d = buf.drop_last();
        let x = buf.last().hv.concept_id@;
        lemma_distinct_concepts(d, c);
        let r = distinct_concepts(d);
        let out = distinct_concepts(buf);
        assert(concept_among(buf, buf.len() as int, c) <==> (concept_among(d, d.len() as int, c) || x == c)) by {
            if concept_among(d, d.len() as int, c) {
                let w = choose|w: int| 0 <= w < d.len() && w < d.len() && (#[trigger] d[w]).hv.concept_id@ == c;
                assert(buf[w] == d[w]);
            }
            if x == c {
                assert(buf[buf.len() - 1].hv.concept_id@ == c);
            }
            if concept_among(buf, buf.len() as int, c) && x != c {
                let w = choose|w: int| 0 <= w < buf.len() && w < buf.len() && (#[trigger] buf[w]).hv.concept_id@ == c;
                assert(w != buf.len() - 1);
                assert(d[w] == buf[w]);
            }
        }
        assert(out.contains(c) <==> (r.contains(c) || x == c)) by {
            if r.contains(x) {
                assert(out == r);
            } else {
                assert(out == r.push(x));
                if out.contains(c) && !r.contains(c) {
                    let w = choose|w: int| 0 <= w < out.len() && out[w] == c;
                    assert(w == r.len());
                }
                if r.contains(c) {
                    let w = choose|w: int| 0 <= w < r.len() && r[w] == c;
                    assert(out[w] == c);
                }
                if x == c {
                    assert(out[r.len() as int] == c);
                }
            }
        }
    }
}

impl<P: Copy> UnifiedKnowledgeBubble<P> {
    /// Moves the episodic traces into the semantic index: the traces of each
    /// concept, taken in order of first appearance, become one entry whose
    /// bits are those with more than `floor(0.4 n)` net votes among the `n`
    /// traces, named by the concept and placed by `place_of_group`; it takes
    /// the place of the first index entry of that concept, or is appended.
    /// Returns where each concept's entry now stands, in that order. The
    /// episodic buffer is emptied.
    pub fn consolidate<F: Fn(&Vec<MemoryTrace<P>>, &Vec<usize>) -> P>(&mut self, place_of_group: F) -> (placed: Vec<usize>)
        requires
            old(self).wf(),
            old(self).episodic_buffer@.len() < 0x8000_0000,
            forall|b: &Vec<MemoryTrace<P>>, m: &Vec<usize>| #[trigger] place_of_group.requires((b, m)),
        ensures
            final(self).wf(),
            final(self).episodic_buffer@.len() == 0,
            exists|es: Seq<(Hypervector, P)>| {
                &&& es.len() == distinct_concepts(old(self).episodic_buffer@).len()
                &&& final(self).semantic_index@ == upserted_all(old(self).semantic_index@, es)
                &&& forall|g: int| 0 <= g < es.len() ==> consolidated_entry(
                    #[trigger] es[g],
                    old(self).episodic_buffer,
                    distinct_concepts(old(self).episodic_buffer@)[g],
                    place_of_group,
                )
                &&& placed@.len() == es.len()
                &&& forall|g: int| 0 <= g < es.len() ==> (#[trigger] placed@[g]) < final(self).semantic_index@.len()
                    && final(self).semantic_index@[placed@[g] as int] == es[g]
            },
            concepts_distinct(old(self).semantic_index@) ==> concepts_distinct(final(self).semantic_index@),
            final(self).procedural_memory == old(self).procedural_memory,
            final(self).task_vectors == old(self).task_vectors,
            final(self).active_task == old(self).active_task,
    {
        let ghost buf = self.episodic_buffer;
        let ghost mut es: Seq<(Hypervector, P)> = Seq::empty();
        let mut placed: Vec<usize> = Vec::new();
        let n = self.episodic_buffer.len();
        let mut i: usize = 0;
        assert(buf@.take(0) =~= Seq::<MemoryTrace<P>>::empty());
        while i < n
            invariant
                i <= n,
                n == buf@.len(),
                n < 0x8000_0000,
                self.episodic_buffer == buf,
                forall|t: int| 0 <= t < buf@.len() ==> (#[trigger] buf@[t]).hv.data@.len() <= PACKED_BYTES,
                forall|b: &Vec<MemoryTrace<P>>, m: &Vec<usize>| #[trigger] place_of_group.requires((b, m)),
                self.procedural_memory == old(self).procedural_memory,
                self.task_vectors == old(self).task_vectors,
                self.active_task == old(self).active_task,
                old(self).wf(),
                es.len() == distinct_concepts(buf@.take(i as int)).len(),
                self.semantic_index@ == upserted_all(old(self).semantic_index@, es),
                forall|g: int| 0 <= g < es.len() ==> consolidated_entry(
                    #[trigger] es[g],
                    buf,
                    distinct_concepts(buf@.take(i as int))[g],
                    place_of_group,
                ),
                placed@.len() == es.len(),
                forall|g: int| 0 <= g < es.len() ==> (#[trigger] placed@[g]) < self.semantic_index@.len()
                    && self.semantic_index@[placed@[g] as int] == es[g],
            decreases n - i,
        {
            let ghost pre = buf@.take(i + 1);
            assert(pre.drop_last() =~= buf@.take(i as int));
            assert(pre.last() == buf@[i as int]);
            let c = self.episodic_buffer[i].hv.concept_id.clone();
            let seen = crate::bubble::appears_before(&self.episodic_buffer, i, &c);
            proof {
                lemma_distinct_concepts(buf@.take(i as int), c@);
                assert(concept_among(buf@.take(i as int), i as int, c@) == concept_among(buf@, i as int, c@)) by {
                    if concept_among(buf@, i as int, c@) {
                        let w = choose|w: int| 0 <= w < i && w < buf@.len() && (#[trigger] buf@[w]).hv.concept_id@ == c@;
                        assert(buf@.take(i as int)[w] == buf@[w]);
                    }
                    if concept_among(buf@.take(i as int), i as int, c@) {
                        let w = choose|w: int| 0 <= w < i && w < buf@.take(i as int).len() && (#[trigger] buf@.take(i as int)[w]).hv.concept_id@ == c@;
                        assert(buf@.take(i as int)[w] == buf@[w]);
                    }
                }
            }
            if !seen {
                let members = crate::bubble::positions_named(&self.episodic_buffer, &c);
                proof {
                    crate::bubble::lemma_named_positions_bound(buf@, c@);
                    assert(concept_among(buf@, buf@.len() as int, c@)) by {
                        assert(buf@[i as int].hv.concept_id@ == c@);
                    }
                }
                let mut hvs: Vec<Hypervector> = Vec::new();
                let mut j: usize = 0;
                while j < members.len()
                    invariant
                        self.episodic_buffer == buf,
                        members@ == named_positions(buf@, c@),
                        forall|t: int| 0 <= t < members@.len() ==> (#[trigger] members@[t]) < buf@.len(),
                        j <= members@.len(),
                        hvs@.len() == j,
                        forall|t: int| 0 <= t < j ==> (#[trigger] hvs@[t]).data@ == buf@[members@[t] as int].hv.data@,
                    decreases members@.len() - j,
                {
                    hvs.push(self.episodic_buffer[members[j]].hv.copy());
                    j = j + 1;
                }
                proof {
                    assert(datas(hvs@) =~= named_data(buf@, c@));
                    assert forall|t: int| 0 <= t < hvs@.len() implies (#[trigger] hvs@[t]).data@.len() <= PACKED_BYTES by {
                        assert(buf@[members@[t] as int].hv.data@.len() <= PACKED_BYTES);
                    }
                }
                let threshold = consolidation_threshold(members.len());
                let mut hv = compress_mp4c(hvs.as_slice(), threshold);
                hv.concept_id = c.clone();
                let place = place_of_group(&self.episodic_buffer, &members);
                let entry = (hv, place);
                proof {
                    assert(place_of_group.ensures((&buf, &members), entry.1));
                    assert(consolidated_entry(entry, buf, c@, place_of_group));
                }
                let ghost before = self.semantic_index@;
                let r = upsert_index(&mut self.semantic_index, entry);
                proof {
                    lemma_upsert_spec(before, self.semantic_index@, entry, r);
                    let old_es = es;
                    es = es.push(entry);
                    assert(es.drop_last() =~= old_es);
                    assert(distinct_concepts(pre) == distinct_concepts(buf@.take(i as int)).push(c@));
                }
                let pos = match r {
                    Some(p) => p,
                    None => self.semantic_index.len() - 1,
                };
                proof {
                    let old_es = es.drop_last();
                    assert forall|g: int| 0 <= g < es.len() implies (#[trigger] placed@.push(pos)[g]) < self.semantic_index@.len()
                        && self.semantic_index@[placed@.push(pos)[g] as int] == es[g] by {
                        if g < old_es.len() {
                            assert(placed@.push(pos)[g] == placed@[g]);
                            assert(before[placed@[g] as int] == old_es[g]);
                            assert(old_es[g].0.concept_id@ == distinct_concepts(buf@.take(i as int))[g]);
                            if r is Some {
                                assert(placed@[g] != pos) by {
                                    if placed@[g] == pos {
                                        assert(before[pos as int].0.concept_id@ == c@);
                                        assert(distinct_concepts(buf@.take(i as int)).contains(c@));
                                    }
                                }
                            }
                        }
                    }
                    assert forall|g: int| 0 <= g < es.len() implies consolidated_entry(
                        #[trigger] es[g],
                        buf,
                        distinct_concepts(pre)[g],
                        place_of_group,
                    ) by {
                        if g < old_es.len() {
                            assert(es[g] == old_es[g]);
                        }
                    }
                }
                placed.push(pos);
            } else {
                proof {
                    assert(distinct_concepts(pre) == distinct_concepts(buf@.take(i as int)));
                }
            }
            i = i + 1;
        }
        assert(buf@.take(n as int) =~= buf@);
        proof {
            if concepts_distinct(old(self).semantic_index@) {
                lemma_upserted_all_distinct(old(self).semantic_index@, es);
            }
        }
        self.episodic_buffer = Vec::new();
        placed
    }
}

/// The views of a slice of string slices.
pub open spec fn str_views(steps: Seq<&str>) -> Seq<Seq<char>> {
    Seq::new(steps.len(), |i: int| steps[i]@)
}

/// The key a fact is stored under: `SPO:<subject>_<predicate>_<object>`.
pub open spec fn fact_key(subject: Seq<char>, predicate: Seq<char>, object: Seq<char>) -> Seq<char> {
    "SPO:"@ + subject + "_"@ + predicate + "_"@ + object
}

impl<P: Copy> UnifiedKnowledgeBubble<P> {
    /// The bytes of the query vector for `query` under an optional task
    /// filter: the query's trigram vector, bound with the task's vector (a
    /// fresh `task_<name>` vector for a task without one).
    pub open spec fn query_data(&self, query: Seq<char>, filter: Option<Seq<char>>) -> Seq<u8> {
        match filter {
            None => ngram_data(query),
            Some(t) => xor_bytes(
                ngram_data(query),
                if self.task_vectors@.contains_key(t) {
                    self.task_vectors@[t].data@
                } else {
                    ngram_data(task_text(t))
                },
            ),
        }
    }

    /// Law: a query filtered by the active task is encoded exactly as
    /// `ingest` encodes a text under that task, so a text ingested under a
    /// task is matched bit for bit by the same text queried under it.
    pub proof fn lemma_task_query_matches_ingest(&self, text: Seq<char>)
        requires
            self.binding_task() is Some,
        ensures
            self.query_data(text, self.binding_task()) == xor_bytes(
                ngram_data(text),
                self.task_vectors@[self.binding_task()->0].data@,
            ),
    {
    }

    /// The index entries that resonate with the query (Hamming distance at
    /// most 3932, that is similarity above 0.52), nearest first with ties in
    /// index order, at most `top_k`, as (position, distance) pairs.
    pub fn retrieve(&self, query: &str, task_filter: Option<&str>, top_k: usize) -> (r: Vec<Hit>)
        requires
            query@.len() < 0x8000_0002,
            task_filter matches Some(t) ==> t@.len() < 0x7fff_fff0,
        ensures
            r@ == first_k(
                rank_hits(resonant_hits(self.query_data(query@, crate::hypervector::opt_view(task_filter)), self.semantic_index@)),
                top_k as nat,
            ),
    {
        let mut q = from_string(query, None);
        match task_filter {
            Some(task) => {
                let task_hv = match self.task_vectors.get(task) {
                    Some(h) => h.copy(),
                    None => {
                        let mut text = String::from_str("task_");
                        text.append(task);
                        proof {
                            reveal_strlit("task_");
                        }
                        from_string(text.as_str(), None)
                    },
                };
                q = bind(&q, &task_hv);
            },
            None => {},
        }
        rank_index(&q, &self.semantic_index, top_k)
    }

    /// Stores the fact (subject, predicate, object) as a new index entry at
    /// `place`: the binding of the three trigram vectors. Returns the key the
    /// fact is kept under on disk.
    pub fn learn_fact(&mut self, subject: &str, predicate: &str, object: &str, place: P) -> (key: String)
        requires
            subject@.len() < 0x8000_0002,
            predicate@.len() < 0x8000_0002,
            object@.len() < 0x8000_0002,
        ensures
            key@ == fact_key(subject@, predicate@, object@),
            final(self).semantic_index@.drop_last() == old(self).semantic_index@,
            final(self).semantic_index@.len() == old(self).semantic_index@.len() + 1,
            final(self).semantic_index@.last().0.data@ == xor_bytes(
                xor_bytes(ngram_data(subject@), ngram_data(predicate@)),
                ngram_data(object@),
            ),
            final(self).semantic_index@.last().0.concept_id@ == "bound("@ + ("bound("@ + prefix_chars(
                subject@,
                50,
            ) + ","@ + prefix_chars(predicate@, 50) + ")"@) + ","@ + prefix_chars(object@, 50) + ")"@,
            final(self).semantic_index@.last().0.source_text@ == subject@,
            final(self).semantic_index@.last().1 == place,
            final(self).episodic_buffer == old(self).episodic_buffer,
            final(self).procedural_memory == old(self).procedural_memory,
            final(self).task_vectors == old(self).task_vectors,
            final(self).active_task == old(self).active_task,
    {
        let s = from_string(subject, None);
        let p = from_string(predicate, None);
        let o = from_string(object, None);
        let triple = bind(&bind(&s, &p), &o);
        let mut key = String::from_str("SPO:");
        key.append(subject);
        key.append("_");
        key.append(predicate);
        key.append("_");
        key.append(object);
        self.semantic_index.push((triple, place));
        assert(self.semantic_index@.drop_last() =~= old(self).semantic_index@);
        key
    }

    /// Remembers a sequence of steps under `name`: each step's trigram vector
    /// bound with the role vector of its position, the pairs bundled, stored
    /// named `name` with the number of steps.
    pub fn ingest_sequence(&mut self, name: &str, steps: &[&str])
        requires
            old(self).wf(),
            steps@.len() < 0x8000_0000,
            forall|i: int| 0 <= i < steps@.len() ==> (#[trigger] steps@[i])@.len() < 0x8000_0002,
        ensures
            final(self).wf(),
            final(self).procedural_memory@.dom() == old(self).procedural_memory@.dom().insert(name@),
            forall|k: Seq<char>| #![trigger final(self).procedural_memory@[k]] k != name@ && old(self).procedural_memory@.contains_key(k)
                ==> final(self).procedural_memory@[k] == old(self).procedural_memory@[k],
            ({
                let (hv, len) = final(self).procedural_memory@[name@];
                &&& hv.data@ == sequence_data(str_views(steps@))
                &&& hv.concept_id@ == name@
                &&& hv.source_text@ == if steps@.len() == 0 {
                    "zero"@
                } else {
                    Seq::<char>::empty()
                }
                &&& len == steps@.len()
            }),
            final(self).episodic_buffer@ == old(self).episodic_buffer@,
            final(self).semantic_index@ == old(self).semantic_index@,
            final(self).task_vectors == old(self).task_vectors,
            final(self).active_task == old(self).active_task,
    {
        let ghost views = str_views(steps@);
        let mut pairs: Vec<Hypervector> = Vec::new();
        let mut i: usize = 0;
        while i < steps.len()
            invariant
                i <= steps@.len(),
                steps@.len() < 0x8000_0000,
                forall|i: int| 0 <= i < steps@.len() ==> (#[trigger] steps@[i])@.len() < 0x8000_0002,
                views == str_views(steps@),
                pairs@.len() == i,
                forall|j: int| 0 <= j < i ==> (#[trigger] pairs@[j]).data@ == role_fillers(views)[j],
            decreases steps@.len() - i,
        {
            let r = role(i);
            let filler = from_string(steps[i], None);
            let pair = bind(&r, &filler);
            pairs.push(pair);
            i = i + 1;
        }
        proof {
            assert(datas(pairs@) =~= role_fillers(views));
            assert forall|t: int| 0 <= t < pairs@.len() implies (#[trigger] pairs@[t]).data@.len() <= PACKED_BYTES by {
                assert(pairs@[t].data@ == role_fillers(views)[t]);
                crate::permute::lemma_permuted_len(ngram_data(position_text(t as nat)), rotation_offset(t));
            }
            reveal_strlit("zero");
        }
        let mut proc_hv = crate::bundle::bundle(pairs.as_slice());
        proc_hv.concept_id = String::from_str(name);
        self.procedural_memory.insert(String::from_str(name), (proc_hv, steps.len()));
        assert(self.procedural_memory@.dom() =~= old(self).procedural_memory@.dom().insert(name@));
    }

    /// Recalls step `step_index` of sequence `name`: the stored bundle bound
    /// with that position's role vector; `None` when there is no such
    /// sequence or it has fewer steps.
    pub fn execute_procedure(&self, name: &str, step_index: usize) -> (r: Option<Hypervector>)
        requires
            self.wf(),
        ensures
            !self.procedural_memory@.contains_key(name@) ==> r is None,
            self.procedural_memory@.contains_key(name@) ==> {
                let (hv, len) = self.procedural_memory@[name@];
                &&& step_index >= len ==> r is None
                &&& step_index < len ==> (r matches Some(out) && out.data@ == xor_bytes(hv.data@, role_data(step_index as nat))
                    && out.concept_id@ == "bound("@ + hv.concept_id@ + ","@ + prefix_chars(position_text(step_index as nat), 50) + ")"@
                    && out.source_text@ == hv.source_text@)
            },
    {
        match self.procedural_memory.get(name) {
            None => None,
            Some(e) => {
                let (proc_hv, len) = e;
                if step_index >= *len {
                    return None;
                }
                let r = role(step_index);
                Some(bind(proc_hv, &r))
            },
        }
    }
}

/// The concepts of the entries whose decision drops them (`None`), in order.
pub open spec fn dropped_concepts<P>(idx: Seq<(Hypervector, P)>, decisions: Seq<Option<P>>) -> Seq<Seq<char>>
    decreases decisions.len(),
{
    if decisions.len() == 0 {
        Seq::empty()
    } else {
        let r = dropped_concepts(idx, decisions.drop_last());
        if decisions.last() is None {
            r.push(idx[decisions.len() - 1].0.concept_id@)
        } else {
            r
        }
    }
}

impl<P: Copy> UnifiedKnowledgeBubble<P> {
    /// Sweeps the semantic index by one decision per entry: an entry whose
    /// decision is `Some(p)` stays, in order, placed at `p`; the others are
    /// dropped, and their concepts are returned in order (for removal from
    /// disk).
    pub fn sweep_index(&mut self, decisions: &Vec<Option<P>>) -> (dropped: Vec<String>)
        requires
            decisions@.len() == old(self).semantic_index@.len(),
        ensures
            final(self).semantic_index@.len() == kept_positions(decisions@).len(),
            forall|j: int|
                0 <= j < final(self).semantic_index@.len() ==> {
                    let i = #[trigger] kept_positions(decisions@)[j];
                    &&& 0 <= i < old(self).semantic_index@.len()
                    &&& final(self).semantic_index@[j].0.data@ == old(self).semantic_index@[i].0.data@
                    &&& final(self).semantic_index@[j].0.concept_id@ == old(self).semantic_index@[i].0.concept_id@
                    &&& final(self).semantic_index@[j].0.source_text@ == old(self).semantic_index@[i].0.source_text@
                    &&& decisions@[i] == Some(final(self).semantic_index@[j].1)
                },
            string_views(dropped@) == dropped_concepts(old(self).semantic_index@, decisions@),
            final(self).episodic_buffer == old(self).episodic_buffer,
            final(self).procedural_memory == old(self).procedural_memory,
            final(self).task_vectors == old(self).task_vectors,
            final(self).active_task == old(self).active_task,
    {
        let ghost idx = self.semantic_index@;
        let ghost dec = decisions@;
        let n = self.semantic_index.len();
        let mut kept: Vec<(Hypervector, P)> = Vec::new();
        let mut dropped: Vec<String> = Vec::new();
        let mut i: usize = 0;
        assert(dec.take(0) =~= Seq::<Option<P>>::empty());
        while i < n
            invariant
                i <= n,
                n == idx.len(),
                dec.len() == n,
                decisions@ == dec,
                self.semantic_index@ == idx,
                kept@.len() == kept_positions(dec.take(i as int)).len(),
                forall|j: int|
                    0 <= j < kept@.len() ==> {
                        let k = #[trigger] kept_positions(dec.take(i as int))[j];
                        &&& 0 <= k < i
                        &&& kept@[j].0.data@ == idx[k].0.data@
                        &&& kept@[j].0.concept_id@ == idx[k].0.concept_id@
                        &&& kept@[j].0.source_text@ == idx[k].0.source_text@
                        &&& dec[k] == Some(kept@[j].1)
                    },
                string_views(dropped@) == dropped_concepts(idx, dec.take(i as int)),
            decreases n - i,
        {
            let ghost pre = dec.take(i as int);
            let ghost next = dec.take(i + 1);
            assert(next.drop_last() =~= pre);
            assert(next.last() == dec[i as int]);
            let ghost kp = kept_positions(pre);
            match decisions[i] {
                Some(p) => {
                    kept.push((self.semantic_index[i].0.copy(), p));
                    assert(kept_positions(next) == kp.push(i as int));
                    assert(dropped_concepts(idx, next) == dropped_concepts(idx, pre));
                },
                None => {
                    let c = self.semantic_index[i].0.concept_id.clone();
                    let ghost before = dropped@;
                    dropped.push(c);
                    assert(kept_positions(next) == kp);
                    assert(string_views(dropped@) =~= string_views(before).push(idx[i as int].0.concept_id@));
                },
            }
            i = i + 1;
        }
        assert(dec.take(n as int) =~= dec);
        self.semantic_index = kept;
        dropped
    }
}

} // verus!
