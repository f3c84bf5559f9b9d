//! The knowledge bubble: episodic traces, their consolidation into semantic
//! memory, task contexts, and procedural sequences.

use crate::bundle::{bundle, datas, lemma_bundle_single, majority};
use crate::hypervector::{
    atomic_data, lemma_bind_commutes, lemma_bind_self_inverse, xor_bytes, Hypervector,
};
use crate::permute::{lemma_permuted_len, permuted, rotation_offset};
use crate::store::NamedStore;
use crate::text::{decimal, prefix_chars, push_decimal};
use crate::PACKED_BYTES;
use vstd::hash_map::StringHashMap;
use vstd::prelude::*;
use vstd::string::StringSliceAdditionalSpecFns;
use vstd::utf8::{decode_utf8, encode_utf8, is_char_boundary};

verus! {

broadcast use vstd::utf8::group_utf8_lib;

/// The memory tier a trace belongs to.
#[derive(Debug, Clone, Copy, PartialEq, Eq, Structural, Hash)]
pub enum MemoryTier {
    Working,
    Episodic,
    Semantic,
    Procedural,
}

/// A hypervector as remembered: its tier, the task it was learned under, and
/// where and when it was placed (`place`, whatever the caller records).
pub struct MemoryTrace<P> {
    pub hv: Hypervector,
    pub tier: MemoryTier,
    pub task_context: Option<String>,
    pub place: P,
}

impl<P> MemoryTrace<P> {
    /// A trace of `hv` in `tier`, placed at `place`.
    pub fn new(hv: Hypervector, tier: MemoryTier, place: P, task_context: Option<String>) -> (t:
        MemoryTrace<P>)
        ensures
            t.hv == hv,
            t.tier == tier,
            t.place == place,
            t.task_context == task_context,
    {
        MemoryTrace { hv, tier, task_context, place }
    }
}

/// The view of an optional string.
pub open spec fn opt_string_view(o: Option<String>) -> Option<Seq<char>> {
    match o {
        Some(s) => Some(s@),
        None => None,
    }
}

/// The first twenty bytes of a text (all of it if shorter), read back as
/// characters.
pub open spec fn lead_bytes(text: &str) -> Seq<char> {
    let b = text.spec_bytes();
    decode_utf8(
        b.subrange(
            0,
            if b.len() < 20 {
                b.len() as int
            } else {
                20
            },
        ),
    )
}

/// The text of a task's vector: `task_` followed by the task's name.
pub open spec fn task_text(name: Seq<char>) -> Seq<char> {
    "task_"@ + name
}

/// `hv` is the vector made for task `name`: the hypervector of `task_<name>`.
pub open spec fn is_task_vector(hv: Hypervector, name: Seq<char>) -> bool {
    &&& hv.data@ == atomic_data(encode_utf8(task_text(name)))
    &&& hv.concept_id@ == prefix_chars(task_text(name), 50)
    &&& hv.source_text@ == task_text(name)
}

/// Episodic traces, semantic memory keyed by concept, procedural sequences
/// keyed by name, and task vectors keyed by task name, with the task that new
/// traces are learned under. `P` is what a trace records of its place.
pub struct UnifiedKnowledgeBubble<P> {
    pub episodic_buffer: Vec<MemoryTrace<P>>,
    pub semantic_memory: NamedStore<MemoryTrace<P>>,
    pub procedural_memory: StringHashMap<(Hypervector, usize)>,
    pub task_vectors: StringHashMap<Hypervector>,
    pub active_task: Option<String>,
}

impl<P> UnifiedKnowledgeBubble<P> {
    /// The stores are consistent: semantic memory names each concept once,
    /// episodic traces are at most 1024 bytes, and every stored sequence has
    /// fewer than 2^31 steps.
    pub open spec fn wf(&self) -> bool {
        &&& self.semantic_memory.wf()
        &&& forall|t: int|
            0 <= t < self.episodic_buffer@.len() ==> (#[trigger] self.episodic_buffer@[t]).hv.data@.len()
                <= PACKED_BYTES
        &&& forall|k: Seq<char>|
            #![trigger self.procedural_memory@[k]]
            self.procedural_memory@.contains_key(k) ==> self.procedural_memory@[k].1 < 0x8000_0000
    }

    /// The task whose vector binds new traces, if there is an active task
    /// that has a vector.
    pub open spec fn binding_task(&self) -> Option<Seq<char>> {
        match self.active_task {
            Some(t) => if self.task_vectors@.contains_key(t@) {
                Some(t@)
            } else {
                None
            },
            None => None,
        }
    }

    /// The bytes `ingest` records for `text`: its hypervector, bound with the
    /// active task's vector if there is one.
    pub open spec fn ingest_data(&self, text: &str) -> Seq<u8> {
        match self.binding_task() {
            Some(t) => xor_bytes(atomic_data(text.spec_bytes()), self.task_vectors@[t].data@),
            None => atomic_data(text.spec_bytes()),
        }
    }

    /// The concept `ingest` records for `text`: `<task>:<first 20 bytes>`
    /// under an active task with a vector, else the first 50 characters.
    pub open spec fn ingest_concept(&self, text: &str) -> Seq<char> {
        match self.binding_task() {
            Some(t) => t + ":"@ + lead_bytes(text),
            None => prefix_chars(text@, 50),
        }
    }

    /// `ingest` can cut the text after 20 bytes: no task binds, or the text
    /// is no longer, or byte 20 starts a character.
    pub open spec fn ingest_cuttable(&self, text: &str) -> bool {
        self.binding_task() is Some && text.spec_bytes().len() > 20 ==> is_char_boundary(
            text.spec_bytes(),
            20,
        )
    }

    /// An empty bubble with no active task.
    pub fn new() -> (b: UnifiedKnowledgeBubble<P>)
        ensures
            b.wf(),
            b.episodic_buffer@.len() == 0,
            b.semantic_memory@ == Map::<Seq<char>, MemoryTrace<P>>::empty(),
            b.procedural_memory@ == Map::<Seq<char>, (Hypervector, usize)>::empty(),
            b.task_vectors@ == Map::<Seq<char>, Hypervector>::empty(),
            b.active_task is None,
    {
        UnifiedKnowledgeBubble {
            episodic_buffer: Vec::new(),
            semantic_memory: NamedStore::new(),
            procedural_memory: StringHashMap::new(),
            task_vectors: StringHashMap::new(),
            active_task: None,
        }
    }

    /// Makes `task_name` the active task, creating its vector (the
    /// hypervector of `task_<name>`) the first time the task is named.
    pub fn set_task(&mut self, task_name: &str)
        requires
            old(self).wf(),
        ensures
            final(self).wf(),
            final(self).active_task matches Some(t) && t@ == task_name@,
            final(self).task_vectors@.dom() == old(self).task_vectors@.dom().insert(task_name@),
            forall|k: Seq<char>| #![trigger final(self).task_vectors@[k]] old(self).task_vectors@.contains_key(k)
                ==> final(self).task_vectors@[k] == old(self).task_vectors@[k],
            !old(self).task_vectors@.contains_key(task_name@) ==> is_task_vector(
                final(self).task_vectors@[task_name@],
                task_name@,
            ),
            final(self).episodic_buffer@ == old(self).episodic_buffer@,
            final(self).semantic_memory == old(self).semantic_memory,
            final(self).procedural_memory == old(self).procedural_memory,
    {
        if !self.task_vectors.contains_key(task_name) {
            let mut text = String::from_str("task_");
            text.append(task_name);
            let hv = Hypervector::from_string(text.as_str(), None);
            self.task_vectors.insert(String::from_str(task_name), hv);
            assert(self.task_vectors@.dom() =~= old(self).task_vectors@.dom().insert(task_name@));
        } else {
            assert(self.task_vectors@.dom() =~= old(self).task_vectors@.dom().insert(task_name@));
        }
        self.active_task = Some(String::from_str(task_name));
    }

    /// Records `text` as an episodic trace at `place`, under the active task,
    /// and returns the trace's concept. Under an active task with a vector the
    /// text's hypervector is bound with it and named `<task>:<first 20 bytes>`.
    pub fn ingest(&mut self, text: &str, place: P) -> (concept: String)
        requires
            old(self).wf(),
            old(self).ingest_cuttable(text),
        ensures
            final(self).wf(),
            concept@ == old(self).ingest_concept(text),
            final(self).episodic_buffer@.len() == old(self).episodic_buffer@.len() + 1,
            final(self).episodic_buffer@.drop_last() == old(self).episodic_buffer@,
            ({
                let t = final(self).episodic_buffer@.last();
                &&& t.hv.data@ == old(self).ingest_data(text)
                &&& t.hv.concept_id@ == old(self).ingest_concept(text)
                &&& t.hv.source_text@ == text@
                &&& t.tier == MemoryTier::Episodic
                &&& opt_string_view(t.task_context) == opt_string_view(old(self).active_task)
                &&& t.place == place
            }),
            final(self).semantic_memory == old(self).semantic_memory,
            final(self).procedural_memory == old(self).procedural_memory,
            final(self).task_vectors == old(self).task_vectors,
            final(self).active_task == old(self).active_task,
    {
        let mut hv = Hypervector::from_string(text, None);
        proof {
            reveal_strlit(":");
        }
        match &self.active_task {
            Some(task) => {
                match self.task_vectors.get(task.as_str()) {
                    Some(task_hv) => {
                        hv = hv.bind(task_hv);
                        let n = if text.as_bytes().len() < 20 {
                            text.as_bytes().len()
                        } else {
                            20
                        };
                        let (head, _) = text.split_at(n);
                        proof {
                            vstd::utf8::encode_utf8_decode_utf8(head@);
                            assert(head.spec_bytes() == text.spec_bytes().subrange(0, n as int));
                        }
                        let mut c = task.clone();
                        c.append(":");
                        c.append(head);
                        hv.concept_id = c;
                    },
                    None => {},
                }
            },
            None => {},
        }
        let concept = hv.concept_id.clone();
        let trace = MemoryTrace {
            hv,
            tier: MemoryTier::Episodic,
            task_context: self.active_task.clone(),
            place,
        };
        self.episodic_buffer.push(trace);
        assert(self.episodic_buffer@.drop_last() =~= old(self).episodic_buffer@);
        assert(self.episodic_buffer@[self.episodic_buffer@.len() - 1].hv.data@.len() <= PACKED_BYTES);
        concept
    }
}

/// The text naming position `i` of a sequence: `pos_<i>`.
pub open spec fn position_text(i: nat) -> Seq<char> {
    "pos_"@ + decimal(i)
}

/// The role vector of position `i`: the hypervector of `pos_<i>` permuted by
/// `i`.
pub open spec fn role_data(i: nat) -> Seq<u8> {
    permuted(atomic_data(encode_utf8(position_text(i))), rotation_offset(i as int))
}

/// The bound pairs of a sequence: role `i` bound with the hypervector of step
/// `i`.
pub open spec fn role_fillers(steps: Seq<Seq<char>>) -> Seq<Seq<u8>> {
    Seq::new(steps.len(), |i: int| xor_bytes(role_data(i as nat), atomic_data(encode_utf8(steps[i]))))
}

/// The bytes a sequence is remembered by: the bundle of its bound pairs (the
/// vector of `zero` when there are no steps).
pub open spec fn sequence_data(steps: Seq<Seq<char>>) -> Seq<u8> {
    if steps.len() == 0 {
        atomic_data(encode_utf8("zero"@))
    } else {
        majority(role_fillers(steps), 0)
    }
}

/// The views of a slice of string slices.
pub open spec fn str_views(steps: Seq<&str>) -> Seq<Seq<char>> {
    Seq::new(steps.len(), |i: int| steps[i]@)
}

/// The role vector for position `i`.
fn role(i: usize) -> (hv: Hypervector)
    requires
        i <= i64::MAX,
    ensures
        hv.data@ == role_data(i as nat),
        hv.concept_id@ == prefix_chars(position_text(i as nat), 50),
        hv.source_text@ == position_text(i as nat),
{
    let mut label = String::from_str("pos_");
    push_decimal(&mut label, i);
    let hv = Hypervector::from_string(label.as_str(), None);
    hv.permute(i as i64)
}

impl<P> UnifiedKnowledgeBubble<P> {
    /// Remembers a sequence of steps under `name`: each step's hypervector is
    /// bound with the role vector of its position, the pairs are bundled, and
    /// the bundle is stored, named `name`, with the number of steps.
    pub fn ingest_sequence(&mut self, name: &str, steps: &[&str])
        requires
            old(self).wf(),
            steps@.len() < 0x8000_0000,
        ensures
            final(self).wf(),
            final(self).procedural_memory@.dom() == old(self).procedural_memory@.dom().insert(name@),
            forall|k: Seq<char>| #![trigger final(self).procedural_memory@[k]] k != name@ && old(self).procedural_memory@.contains_key(k)
                ==> final(self).procedural_memory@[k] == old(self).procedural_memory@[k],
            ({
                let (hv, len) = final(self).procedural_memory@[name@];
                &&& hv.data@ == sequence_data(str_views(steps@))
                &&& hv.concept_id@ == name@
                &&& hv.source_text@ == if steps@.len() == 0 {
                    "zero"@
                } else {
                    Seq::<char>::empty()
                }
                &&& len == steps@.len()
            }),
            final(self).episodic_buffer@ == old(self).episodic_buffer@,
            final(self).semantic_memory == old(self).semantic_memory,
            final(self).task_vectors == old(self).task_vectors,
            final(self).active_task == old(self).active_task,
    {
        let ghost views = str_views(steps@);
        let mut pairs: Vec<Hypervector> = Vec::new();
        let mut i: usize = 0;
        while i < steps.len()
            invariant
                i <= steps@.len(),
                steps@.len() < 0x8000_0000,
                views == str_views(steps@),
                pairs@.len() == i,
                forall|j: int| 0 <= j < i ==> (#[trigger] pairs@[j]).data@ == role_fillers(views)[j],
            decreases steps@.len() - i,
        {
            let r = role(i);
            let filler = Hypervector::from_string(steps[i], None);
            let pair = r.bind(&filler);
            pairs.push(pair);
            i = i + 1;
        }
        proof {
            assert(datas(pairs@) =~= role_fillers(views));
            assert forall|t: int| 0 <= t < pairs@.len() implies (#[trigger] pairs@[t]).data@.len() <= PACKED_BYTES by {
                assert(pairs@[t].data@ == role_fillers(views)[t]);
            }
            reveal_strlit("zero");
        }
        let mut proc_hv = bundle(pairs.as_slice());
        proc_hv.concept_id = String::from_str(name);
        self.procedural_memory.insert(String::from_str(name), (proc_hv, steps.len()));
        assert(self.procedural_memory@.dom() =~= old(self).procedural_memory@.dom().insert(name@));
    }

    /// Recalls step `step_index` of the sequence `name`: the stored bundle
    /// bound with the role vector of that position. `None` when there is no
    /// such sequence or it has fewer steps.
    pub fn execute_procedure(&self, name: &str, step_index: usize) -> (r: Option<Hypervector>)
        requires
            self.wf(),
        ensures
            !self.procedural_memory@.contains_key(name@) ==> r is None,
            self.procedural_memory@.contains_key(name@) ==> {
                let (hv, len) = self.procedural_memory@[name@];
                &&& step_index >= len ==> r is None
                &&& step_index < len ==> (r matches Some(out) && out.data@ == xor_bytes(hv.data@, role_data(step_index as nat))
                    && out.concept_id@ == "bound_"@ + hv.concept_id@ + "_"@ + prefix_chars(position_text(step_index as nat), 50)
                    && out.source_text@ == hv.source_text@)
            },
    {
        let entry = self.procedural_memory.get(name);
        match entry {
            None => None,
            Some(e) => {
                let (proc_hv, len) = e;
                if step_index >= *len {
                    return None;
                }
                let r = role(step_index);
                Some(proc_hv.bind(&r))
            },
        }
    }
}

/// Law: every step of a sequence, of any length, is held under the role of
/// its own position: unbinding the role of position `i` (the role that
/// recalling step `i` unbinds) from the pair stored for step `i` gives that
/// step's atomic vector back exactly.
pub proof fn lemma_step_pair_recalls(steps: Seq<Seq<char>>, i: int)
    requires
        0 <= i < steps.len(),
    ensures
        xor_bytes(role_fillers(steps)[i], role_data(i as nat)) == atomic_data(encode_utf8(steps[i])),
{
    let r = role_data(i as nat);
    let f = atomic_data(encode_utf8(steps[i]));
    lemma_permuted_len(atomic_data(encode_utf8(position_text(i as nat))), rotation_offset(i));
    lemma_bind_commutes(r, f);
    lemma_bind_self_inverse(f, r);
}

/// Law: a one-step sequence recalls its step exactly: unbinding the role from
/// the stored bundle gives back the step's hypervector.
pub proof fn lemma_single_step_recall(step: Seq<char>)
    ensures
        xor_bytes(sequence_data(seq![step]), role_data(0)) == atomic_data(encode_utf8(step)),
{
    let r = role_data(0);
    let f = atomic_data(encode_utf8(step));
    lemma_permuted_len(atomic_data(encode_utf8(position_text(0))), rotation_offset(0));
    assert(role_fillers(seq![step]) =~= seq![xor_bytes(r, f)]);
    lemma_bundle_single(xor_bytes(r, f));
    lemma_bind_commutes(r, f);
    lemma_bind_self_inverse(f, r);
}

/// Positions of the traces in `buf` whose concept is `c`, in order.
pub open spec fn named_positions<P>(buf: Seq<MemoryTrace<P>>, c: Seq<char>) -> Seq<usize>
    decreases buf.len(),
{
    if buf.len() == 0 {
        Seq::empty()
    } else {
        let r = named_positions(buf.drop_last(), c);
        if buf.last().hv.concept_id@ == c {
            r.push((buf.len() - 1) as usize)
        } else {
            r
        }
    }
}

/// The data of the traces in `buf` whose concept is `c`, in order.
pub open spec fn named_data<P>(buf: Seq<MemoryTrace<P>>, c: Seq<char>) -> Seq<Seq<u8>> {
    Seq::new(named_positions(buf, c).len(), |j: int| buf[named_positions(buf, c)[j] as int].hv.data@)
}

/// Some trace among the first `n` of `buf` has concept `c`.
pub open spec fn concept_among<P>(buf: Seq<MemoryTrace<P>>, n: int, c: Seq<char>) -> bool {
    exists|j: int| 0 <= j < n && j < buf.len() && (#[trigger] buf[j]).hv.concept_id@ == c
}

/// `t` is the semantic trace that consolidation makes of the traces in `buf`
/// with concept `c`: their majority, named `c`, with no source text, in the
/// semantic tier, with no task, placed where `place_of_group` put the group.
pub open spec fn consolidated<P, F: Fn(&Vec<MemoryTrace<P>>, &Vec<usize>) -> P>(
    t: MemoryTrace<P>,
    buf: Vec<MemoryTrace<P>>,
    c: Seq<char>,
    place_of_group: F,
) -> bool {
    &&& t.hv.data@ == majority(named_data(buf@, c), 0)
    &&& t.hv.concept_id@ == c
    &&& t.hv.source_text@ == Seq::<char>::empty()
    &&& t.tier == MemoryTier::Semantic
    &&& t.task_context is None
    &&& exists|m: Vec<usize>|
        m@ == named_positions(buf@, c) && #[trigger] place_of_group.ensures((&buf, &m), t.place)
}

/// Law: a concept met once is consolidated unchanged: its semantic trace
/// keeps the bits of its one (full-length) episodic trace.
pub proof fn lemma_lone_trace_kept<P, F: Fn(&Vec<MemoryTrace<P>>, &Vec<usize>) -> P>(
    t: MemoryTrace<P>,
    buf: Vec<MemoryTrace<P>>,
    c: Seq<char>,
    place_of_group: F,
)
    requires
        consolidated(t, buf, c, place_of_group),
        named_positions(buf@, c).len() == 1,
        buf@[named_positions(buf@, c)[0] as int].hv.data@.len() == PACKED_BYTES,
    ensures
        t.hv.data@ == buf@[named_positions(buf@, c)[0] as int].hv.data@,
{
    let d = buf@[named_positions(buf@, c)[0] as int].hv.data@;
    assert(named_data(buf@, c) =~= seq![d]);
    lemma_bundle_single(d);
}

/// Positions below `n` of the traces named `c` are the positions in `buf.take(n)`.
pub(crate) proof fn lemma_named_positions_bound<P>(buf: Seq<MemoryTrace<P>>, c: Seq<char>)
    requires
        buf.len() <= usize::MAX,
    ensures
        forall|j: int| 0 <= j < named_positions(buf, c).len() ==> {
            &&& (#[trigger] named_positions(buf, c)[j]) < buf.len()
            &&& buf[named_positions(buf, c)[j] as int].hv.concept_id@ == c
        },
        concept_among(buf, buf.len() as int, c) ==> named_positions(buf, c).len() > 0,
        named_positions(buf, c).len() <= buf.len(),
    decreases buf.len(),
{
    if buf.len() > 0 {
        let d = buf.drop_last();
        lemma_named_positions_bound(d, c);
        let r = named_positions(d, c);
        let p = named_positions(buf, c);
        assert forall|j: int| 0 <= j < p.len() implies (#[trigger] p[j]) < buf.len() && buf[p[j] as int].hv.concept_id@ == c by {
            if j < r.len() {
                assert(p[j] == r[j]);
                assert(r[j] < d.len());
                assert(buf[r[j] as int] == d[r[j] as int]);
            } else {
                assert(buf.last().hv.concept_id@ == c);
                assert(p[j] == (buf.len() - 1) as usize);
            }
        }
        if concept_among(buf, buf.len() as int, c) && buf.last().hv.concept_id@ != c {
            let j = choose|j: int| 0 <= j < buf.len() && j < buf.len() && (#[trigger] buf[j]).hv.concept_id@ == c;
            assert(j != buf.len() - 1);
            assert(d[j] == buf[j]);
            assert(concept_among(d, d.len() as int, c));
        }
    }
}

/// The positions of the traces named `c`.
pub(crate) fn positions_named<P>(buf: &Vec<MemoryTrace<P>>, c: &String) -> (m: Vec<usize>)
    ensures
        m@ == named_positions(buf@, c@),
{
    let mut m: Vec<usize> = Vec::new();
    let mut k: usize = 0;
    assert(buf@.take(0) =~= Seq::<MemoryTrace<P>>::empty());
    while k < buf.len()
        invariant
            k <= buf@.len(),
            m@ == named_positions(buf@.take(k as int), c@),
        decreases buf@.len() - k,
    {
        assert(buf@.take(k + 1).drop_last() =~= buf@.take(k as int));
        if buf[k].hv.concept_id == *c {
            m.push(k);
        }
        k = k + 1;
    }
    assert(buf@.take(buf@.len() as int) =~= buf@);
    m
}

/// Whether a trace before position `n` has concept `c`.
pub(crate) fn appears_before<P>(buf: &Vec<MemoryTrace<P>>, n: usize, c: &String) -> (b: bool)
    requires
        n <= buf@.len(),
    ensures
        b == concept_among(buf@, n as int, c@),
{
    let mut j: usize = 0;
    while j < n
        invariant
            j <= n,
            n <= buf@.len(),
            forall|i: int| 0 <= i < j ==> (#[trigger] buf@[i]).hv.concept_id@ != c@,
        decreases n - j,
    {
        if buf[j].hv.concept_id == *c {
            return true;
        }
        j = j + 1;
    }
    false
}

impl<P> UnifiedKnowledgeBubble<P> {
    /// Moves the episodic traces into semantic memory: the traces of each
    /// concept are bundled into one semantic trace named by the concept,
    /// placed by `place_of_group` (given the buffer and the group's
    /// positions), replacing any semantic trace of that concept. The episodic
    /// buffer is emptied.
    pub fn consolidate<F: Fn(&Vec<MemoryTrace<P>>, &Vec<usize>) -> P>(&mut self, place_of_group: F)
        requires
            old(self).wf(),
            old(self).episodic_buffer@.len() < 0x8000_0000,
            forall|b: &Vec<MemoryTrace<P>>, m: &Vec<usize>| #[trigger] place_of_group.requires((b, m)),
        ensures
            final(self).wf(),
            final(self).episodic_buffer@.len() == 0,
            forall|c: Seq<char>| #[trigger] final(self).semantic_memory@.contains_key(c) <==> (
                old(self).semantic_memory@.contains_key(c) || concept_among(
                    old(self).episodic_buffer@,
                    old(self).episodic_buffer@.len() as int,
                    c,
                )),
            forall|c: Seq<char>|
                concept_among(old(self).episodic_buffer@, old(self).episodic_buffer@.len() as int, c)
                    ==> consolidated(
                    #[trigger] final(self).semantic_memory@[c],
                    old(self).episodic_buffer,
                    c,
                    place_of_group,
                ),
            forall|c: Seq<char>|
                !concept_among(old(self).episodic_buffer@, old(self).episodic_buffer@.len() as int, c)
                    && old(self).semantic_memory@.contains_key(c) ==> #[trigger] final(self).semantic_memory@[c]
                    == old(self).semantic_memory@[c],
            final(self).procedural_memory == old(self).procedural_memory,
            final(self).task_vectors == old(self).task_vectors,
            final(self).active_task == old(self).active_task,
    {
        let ghost buf = self.episodic_buffer;
        let n = self.episodic_buffer.len();
        let mut i: usize = 0;
        while i < n
            invariant
                i <= n,
                n == buf@.len(),
                n < 0x8000_0000,
                self.episodic_buffer == buf,
                forall|t: int| 0 <= t < buf@.len() ==> (#[trigger] buf@[t]).hv.data@.len() <= PACKED_BYTES,
                forall|b: &Vec<MemoryTrace<P>>, m: &Vec<usize>| #[trigger] place_of_group.requires((b, m)),
                self.semantic_memory.wf(),
                self.procedural_memory == old(self).procedural_memory,
                self.task_vectors == old(self).task_vectors,
                self.active_task == old(self).active_task,
                forall|c: Seq<char>| #[trigger] self.semantic_memory@.contains_key(c) <==> (
                    old(self).semantic_memory@.contains_key(c) || concept_among(buf@, i as int, c)),
                forall|c: Seq<char>|
                    concept_among(buf@, i as int, c) ==> consolidated(
                        #[trigger] self.semantic_memory@[c],
                        buf,
                        c,
                        place_of_group,
                    ),
                forall|c: Seq<char>|
                    !concept_among(buf@, i as int, c) && old(self).semantic_memory@.contains_key(c)
                        ==> #[trigger] self.semantic_memory@[c] == old(self).semantic_memory@[c],
            decreases n - i,
        {
            let c = self.episodic_buffer[i].hv.concept_id.clone();
            let seen = appears_before(&self.episodic_buffer, i, &c);
            if !seen {
                let members = positions_named(&self.episodic_buffer, &c);
                proof {
                    lemma_named_positions_bound(buf@, c@);
                    assert(concept_among(buf@, buf@.len() as int, c@)) by {
                        assert(buf@[i as int].hv.concept_id@ == c@);
                    }
                }
                let mut hvs: Vec<Hypervector> = Vec::new();
                let mut j: usize = 0;
                while j < members.len()
                    invariant
                        self.episodic_buffer == buf,
                        members@ == named_positions(buf@, c@),
                        forall|t: int| 0 <= t < members@.len() ==> (#[trigger] members@[t]) < buf@.len(),
                        j <= members@.len(),
                        hvs@.len() == j,
                        forall|t: int| 0 <= t < j ==> (#[trigger] hvs@[t]).data@ == buf@[members@[t] as int].hv.data@,
                    decreases members@.len() - j,
                {
                    hvs.push(self.episodic_buffer[members[j]].hv.copy());
                    j = j + 1;
                }
                proof {
                    assert(datas(hvs@) =~= named_data(buf@, c@));
                    assert forall|t: int| 0 <= t < hvs@.len() implies (#[trigger] hvs@[t]).data@.len() <= PACKED_BYTES by {
                        assert(buf@[members@[t] as int].hv.data@.len() <= PACKED_BYTES);
                    }
                }
                let mut hv = bundle(hvs.as_slice());
                hv.concept_id = c.clone();
                let place = place_of_group(&self.episodic_buffer, &members);
                let trace = MemoryTrace { hv, tier: MemoryTier::Semantic, task_context: None, place };
                proof {
                    assert(trace.hv.data@ == majority(named_data(buf@, c@), 0));
                    assert(trace.hv.concept_id@ == c@);
                    assert(trace.hv.source_text@ == Seq::<char>::empty());
                    assert(place_of_group.ensures((&buf, &members), trace.place));
                    assert(consolidated(trace, buf, c@, place_of_group));
                }
                let ghost before = self.semantic_memory@;
                self.semantic_memory.insert(c, trace);
                proof {
                    assert forall|d: Seq<char>| concept_among(buf@, i + 1, d) implies consolidated(
                        #[trigger] self.semantic_memory@[d],
                        buf,
                        d,
                        place_of_group,
                    ) by {
                        if d != c@ {
                            let w = choose|w: int| 0 <= w < i + 1 && w < buf@.len() && (#[trigger] buf@[w]).hv.concept_id@ == d;
                            assert(w != i);
                            assert(concept_among(buf@, i as int, d));
                        }
                    }
                    assert forall|d: Seq<char>| !concept_among(buf@, i + 1, d) implies !concept_among(buf@, i as int, d) by {
                        if concept_among(buf@, i as int, d) {
                            let w = choose|w: int| 0 <= w < i && w < buf@.len() && (#[trigger] buf@[w]).hv.concept_id@ == d;
                            assert(concept_among(buf@, i + 1, d));
                        }
                    }
                    assert forall|d: Seq<char>| #[trigger] self.semantic_memory@.contains_key(d) <==> (
                        old(self).semantic_memory@.contains_key(d) || concept_among(buf@, i + 1, d)) by {
                        if d == c@ {
                            assert(buf@[i as int].hv.concept_id@ == d);
                        } else if concept_among(buf@, i + 1, d) {
                            let w = choose|w: int| 0 <= w < i + 1 && w < buf@.len() && (#[trigger] buf@[w]).hv.concept_id@ == d;
                            assert(concept_among(buf@, i as int, d));
                        }
                    }
                }
            } else {
                proof {
                    assert forall|d: Seq<char>| concept_among(buf@, i + 1, d) == concept_among(buf@, i as int, d) by {
                        if concept_among(buf@, i + 1, d) && !concept_among(buf@, i as int, d) {
                            let w = choose|w: int| 0 <= w < i + 1 && w < buf@.len() && (#[trigger] buf@[w]).hv.concept_id@ == d;
                            assert(w == i);
                        }
                        if concept_among(buf@, i as int, d) {
                            let w = choose|w: int| 0 <= w < i && w < buf@.len() && (#[trigger] buf@[w]).hv.concept_id@ == d;
                            assert(concept_among(buf@, i + 1, d));
                        }
                    }
                }
            }
            i = i + 1;
        }
        self.episodic_buffer = Vec::new();
    }
}

impl<P> UnifiedKnowledgeBubble<P> {
    /// The vector a query is matched with: the query's hypervector, bound
    /// with the vector of the filtering task when that task has one.
    pub fn query_vector(&self, query: &str, task_filter: Option<&str>) -> (q: Hypervector)
        ensures
            q.data@ == match task_filter {
                Some(t) => if self.task_vectors@.contains_key(t@) {
                    xor_bytes(atomic_data(query.spec_bytes()), self.task_vectors@[t@].data@)
                } else {
                    atomic_data(query.spec_bytes())
                },
                None => atomic_data(query.spec_bytes()),
            },
            q.data@.len() <= PACKED_BYTES,
    {
        let q = Hypervector::from_string(query, None);
        match task_filter {
            Some(task) => match self.task_vectors.get(task) {
                Some(task_hv) => q.bind(task_hv),
                None => q,
            },
            None => q,
        }
    }
}

/// The positions whose decision keeps the entry (`Some`), in order.
pub open spec fn kept_positions<P>(decisions: Seq<Option<P>>) -> Seq<int>
    decreases decisions.len(),
{
    if decisions.len() == 0 {
        Seq::empty()
    } else {
        let r = kept_positions(decisions.drop_last());
        if decisions.last() is Some {
            r.push(decisions.len() - 1)
        } else {
            r
        }
    }
}

/// The names at the kept positions, in order.
pub open spec fn kept_names<P>(names: Seq<Seq<char>>, decisions: Seq<Option<P>>) -> Seq<Seq<char>> {
    Seq::new(kept_positions(decisions).len(), |j: int| names[kept_positions(decisions)[j]])
}

impl<P: Copy> UnifiedKnowledgeBubble<P> {
    /// Sweeps semantic memory by one decision per concept, in the order of
    /// its names: a trace whose decision is `Some(p)` stays, placed at `p`;
    /// the others are forgotten. Returns how many were forgotten.
    pub fn sweep_semantic(&mut self, decisions: &Vec<Option<P>>) -> (removed: usize)
        requires
            old(self).wf(),
            decisions@.len() == old(self).semantic_memory.names().len(),
        ensures
            final(self).wf(),
            final(self).semantic_memory.names() == kept_names(old(self).semantic_memory.names(), decisions@),
            forall|j: int|
                0 <= j < kept_positions(decisions@).len() ==> {
                    let i = #[trigger] kept_positions(decisions@)[j];
                    let o = old(self).semantic_memory.values()[i];
                    let t = final(self).semantic_memory.values()[j];
                    &&& 0 <= i < decisions@.len()
                    &&& t.hv.data@ == o.hv.data@
                    &&& t.hv.concept_id@ == o.hv.concept_id@
                    &&& t.hv.source_text@ == o.hv.source_text@
                    &&& t.tier == o.tier
                    &&& t.task_context == o.task_context
                    &&& decisions@[i] == Some(t.place)
                },
            removed == decisions@.len() - kept_positions(decisions@).len(),
            final(self).episodic_buffer@ == old(self).episodic_buffer@,
            final(self).procedural_memory == old(self).procedural_memory,
            final(self).task_vectors == old(self).task_vectors,
            final(self).active_task == old(self).active_task,
    {
        let ghost names = self.semantic_memory.names();
        let ghost values = self.semantic_memory.values();
        let ghost dec = decisions@;
        let n = self.semantic_memory.len();
        let mut kept: NamedStore<MemoryTrace<P>> = NamedStore::new();
        let mut removed: usize = 0;
        let mut i: usize = 0;
        assert(dec.take(0) =~= Seq::<Option<P>>::empty());
        assert(kept.names() =~= kept_names(names, dec.take(0)));
        while i < n
            invariant
                i <= n,
                n == names.len(),
                dec.len() == n,
                decisions@ == dec,
                self.semantic_memory.names() == names,
                self.semantic_memory.values() == values,
                self.semantic_memory.wf(),
                kept.wf(),
                kept.names() == kept_names(names, dec.take(i as int)),
                kept.values().len() == kept_positions(dec.take(i as int)).len(),
                forall|j: int|
                    0 <= j < kept_positions(dec.take(i as int)).len() ==> {
                        let k = #[trigger] kept_positions(dec.take(i as int))[j];
                        let t = kept.values()[j];
                        &&& 0 <= k < i
                        &&& t.hv.data@ == values[k].hv.data@
                        &&& t.hv.concept_id@ == values[k].hv.concept_id@
                        &&& t.hv.source_text@ == values[k].hv.source_text@
                        &&& t.tier == values[k].tier
                        &&& t.task_context == values[k].task_context
                        &&& dec[k] == Some(t.place)
                    },
                removed == i - kept_positions(dec.take(i as int)).len(),
            decreases n - i,
        {
            let ghost pre = dec.take(i as int);
            let ghost next = dec.take(i + 1);
            assert(next.drop_last() =~= pre);
            assert(next.last() == dec[i as int]);
            let ghost kp = kept_positions(pre);
            match decisions[i] {
                Some(p) => {
                    let o = self.semantic_memory.value_at(i);
                    let task_context = match &o.task_context {
                        Some(t) => Some(t.clone()),
                        None => None,
                    };
                    let t = MemoryTrace { hv: o.hv.copy(), tier: o.tier, task_context, place: p };
                    let name = self.semantic_memory.name_at(i).clone();
                    proof {
                        assert(kept_positions(next) == kp.push(i as int));
                        assert(!kept.names().contains(name@)) by {
                            if kept.names().contains(name@) {
                                let w = choose|w: int| 0 <= w < kept.names().len() && kept.names()[w] == name@;
                                assert(kept.names()[w] == names[kp[w]]);
                                assert(kp[w] < i);
                                assert(names.no_duplicates());
                            }
                        }
                    }
                    let ghost before = kept;
                    kept.push_new(name, t);
                    proof {
                        assert(kept.names() =~= kept_names(names, next));
                        assert forall|j: int| 0 <= j < kept_positions(next).len() implies {
                            let k = #[trigger] kept_positions(next)[j];
                            let t = kept.values()[j];
                            &&& 0 <= k < i + 1
                            &&& t.hv.data@ == values[k].hv.data@
                            &&& t.hv.concept_id@ == values[k].hv.concept_id@
                            &&& t.hv.source_text@ == values[k].hv.source_text@
                            &&& t.tier == values[k].tier
                            &&& t.task_context == values[k].task_context
                            &&& dec[k] == Some(t.place)
                        } by {
                            if j < kp.len() {
                                assert(kept_positions(next)[j] == kp[j]);
                                assert(kept.values()[j] == before.values()[j]);
                            }
                        }
                    }
                },
                None => {
                    removed = removed + 1;
                    proof {
                        assert(kept_positions(next) == kp);
                        assert(kept.names() =~= kept_names(names, next));
                    }
                },
            }
            i = i + 1;
        }
        assert(dec.take(n as int) =~= dec);
        self.semantic_memory = kept;
        removed
    }
}

} // verus!
