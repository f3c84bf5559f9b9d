//! The "God Node" variant of the engine: text encoded by bundling character
//! trigrams (so texts that share trigrams get similar vectors), binding that
//! names its result `bound(a,b)`, document ingestion, and the decisions of
//! its disk-backed semantic index.

use crate::agent::{name_views, HDQAgent, EXPERIENCE_CAPACITY};
use crate::ast::ASTNode;
use crate::bundle::{bundle, bundle_input, datas, majority};
use crate::store::NamedStore;
use std::collections::VecDeque;
use crate::hypervector::{
    atomic_data, default_concept, opt_view, xor_bytes, xor_data, Hypervector,
};
use crate::text::{chars_of, prefix_chars, push_char, take_chars};
use crate::{DIMS, PACKED_BYTES};
use vstd::prelude::*;
use vstd::utf8::encode_utf8;

verus! {

/// The length of the character n-grams a text is encoded by.
pub const NGRAM_SIZE: usize = 3;

/// The atomic vectors of the trigrams of a text, in order.
pub open spec fn ngram_datas(text: Seq<char>) -> Seq<Seq<u8>> {
    Seq::new(
        (text.len() - 2) as nat,
        |w: int| atomic_data(encode_utf8(text.subrange(w, w + NGRAM_SIZE as int))),
    )
}

/// The bytes of a text's trigram encoding: the bundle of the atomic vectors of
/// its trigrams, or the atomic vector of the whole text when it has fewer than
/// three characters.
pub open spec fn ngram_data(text: Seq<char>) -> Seq<u8> {
    if text.len() < NGRAM_SIZE {
        atomic_data(encode_utf8(text))
    } else {
        majority(ngram_datas(text), 0)
    }
}

/// Law: the trigram encoding uses every window of the text. A text of
/// `n >= 3` characters casts `n - 2` trigram votes, and appending a character
/// to a text of at least two adds exactly one vote, that of its last three
/// characters, to the tally on every bit.
pub proof fn lemma_ngram_every_window(text: Seq<char>, c: char, k: int)
    requires
        text.len() >= 2,
    ensures
        text.len() >= 3 ==> ngram_datas(text).len() == text.len() - 2,
        ngram_datas(text.push(c)) == ngram_datas(text).push(
            atomic_data(encode_utf8(text.push(c).subrange(text.len() - 2, text.len() + 1 as int))),
        ),
        crate::bundle::tally(ngram_datas(text.push(c)), k) == crate::bundle::tally(ngram_datas(text), k)
            + crate::bundle::vote(
            atomic_data(encode_utf8(text.push(c).subrange(text.len() - 2, text.len() + 1 as int))),
            k,
        ),
{
    let t = text.push(c);
    let last = atomic_data(encode_utf8(t.subrange(text.len() - 2, text.len() + 1 as int)));
    assert forall|w: int| 0 <= w < text.len() - 2 implies #[trigger] t.subrange(w, w + 3) == text.subrange(w, w + 3) by {
        assert(t.subrange(w, w + 3) =~= text.subrange(w, w + 3));
    }
    assert(ngram_datas(t) =~= ngram_datas(text).push(last));
    assert(ngram_datas(t).drop_last() =~= ngram_datas(text));
}

/// The hypervector of `text` by trigram bundling, named by `concept_id` or
/// else by the first fifty characters of the text. A text shorter than three
/// characters gets its atomic vector.
pub fn from_string(text: &str, concept_id: Option<&str>) -> (hv: Hypervector)
    requires
        text@.len() < 0x8000_0002,
    ensures
        hv.data@ == ngram_data(text@),
        hv.data@.len() == PACKED_BYTES,
        hv.concept_id@ == default_concept(text@, opt_view(concept_id)),
        hv.source_text@ == text@,
{
    let chars = chars_of(text);
    let concept = match concept_id {
        Some(c) => String::from_str(c),
        None => take_chars(text, 50),
    };
    if chars.len() < NGRAM_SIZE {
        return Hypervector::atomic_from_str(text, concept.as_str());
    }
    let n = chars.len() - 2;
    let mut grams: Vec<Hypervector> = Vec::new();
    let mut w: usize = 0;
    while w < n
        invariant
            chars@ == text@,
            n == text@.len() - 2,
            n < 0x8000_0000,
            w <= n,
            grams@.len() == w,
            forall|j: int| 0 <= j < w ==> (#[trigger] grams@[j]).data@ == ngram_datas(text@)[j],
            forall|j: int| 0 <= j < w ==> (#[trigger] grams@[j]).data@.len() == PACKED_BYTES,
        decreases n - w,
    {
        let mut g = String::new();
        push_char(&mut g, chars[w]);
        push_char(&mut g, chars[w + 1]);
        push_char(&mut g, chars[w + 2]);
        assert(g@ =~= text@.subrange(w as int, w + 3));
        let hv = Hypervector::atomic_from_str(g.as_str(), g.as_str());
        grams.push(hv);
        w = w + 1;
    }
    assert(datas(grams@) =~= ngram_datas(text@));
    let mut hv = bundle(grams.as_slice());
    hv.concept_id = concept;
    hv.source_text = String::from_str(text);
    hv
}

/// Binding in this variant: element-wise exclusive or, named
/// `bound(<a>,<b>)`, keeping `a`'s source text.
pub fn bind(a: &Hypervector, b: &Hypervector) -> (out: Hypervector)
    ensures
        out.data@ == xor_bytes(a.data@, b.data@),
        out.concept_id@ == "bound("@ + a.concept_id@ + ","@ + b.concept_id@ + ")"@,
        out.source_text@ == a.source_text@,
{
    let data = xor_data(&a.data, &b.data);
    let mut concept_id = String::from_str("bound(");
    concept_id.append(a.concept_id.as_str());
    concept_id.append(",");
    concept_id.append(b.concept_id.as_str());
    concept_id.append(")");
    Hypervector { data, concept_id, source_text: a.source_text.clone() }
}

/// The concept a trace ingested under task `task` gets: `<task>:` followed by
/// the first twenty characters of the text.
pub fn ingest_concept(task: &str, text: &str) -> (c: String)
    ensures
        c@ == task@ + ":"@ + prefix_chars(text@, 20),
{
    let mut c = String::from_str(task);
    c.append(":");
    let head = take_chars(text, 20);
    c.append(head.as_str());
    c
}

/// The noise floor of consolidation, four tenths of the group, as a vote
/// threshold: `floor(0.4 * count)`, computed exactly as `2 * count / 5`.
pub fn consolidation_threshold(count: usize) -> (t: i32)
    requires
        count < 0x8000_0000,
    ensures
        t == (2 * count) / 5,
{
    ((2 * count as u64) / 5) as i32
}

/// The largest Hamming distance at which a memory still resonates with a
/// query: similarity `1 - d / 8192` above 0.52 holds exactly for `d <= 3932`.
pub const RESONANCE_MAX_DISTANCE: u32 = 3932;

/// A ranked hit: position in the index and Hamming distance to the query.
pub type Hit = (usize, u32);

/// Inserts `h` into `ranked` after every hit at most as far: a stable
/// insertion by distance.
pub open spec fn insert_ranked(ranked: Seq<Hit>, h: Hit) -> Seq<Hit>
    decreases ranked.len(),
{
    if ranked.len() == 0 {
        seq![h]
    } else if ranked.last().1 <= h.1 {
        ranked.push(h)
    } else {
        insert_ranked(ranked.drop_last(), h).push(ranked.last())
    }
}

/// The hits sorted by distance, nearest first, keeping index order among
/// equal distances (a stable sort).
pub open spec fn rank_hits(hits: Seq<Hit>) -> Seq<Hit>
    decreases hits.len(),
{
    if hits.len() == 0 {
        Seq::empty()
    } else {
        insert_ranked(rank_hits(hits.drop_last()), hits.last())
    }
}

/// The positions of the index entries within resonance distance of the query,
/// with their distances, in index order.
pub open spec fn resonant_hits<P>(query: Seq<u8>, index: Seq<(Hypervector, P)>) -> Seq<Hit>
    decreases index.len(),
{
    if index.len() == 0 {
        Seq::empty()
    } else {
        let r = resonant_hits(query, index.drop_last());
        let d = crate::distance::hamming(query, index.last().0.data@);
        if d <= RESONANCE_MAX_DISTANCE {
            r.push(((index.len() - 1) as usize, d as u32))
        } else {
            r
        }
    }
}

/// The first `k` items of `s`, or all of them.
pub open spec fn first_k<A>(s: Seq<A>, k: nat) -> Seq<A> {
    if s.len() <= k {
        s
    } else {
        s.take(k as int)
    }
}

/// Distances in a ranking never decrease.
pub open spec fn nearest_first(r: Seq<Hit>) -> bool {
    forall|i: int, j: int| 0 <= i < j < r.len() ==> r[i].1 <= r[j].1
}

/// Stable insertion into a sorted ranking.
fn insert_hit(ranked: &mut Vec<Hit>, h: Hit)
    ensures
        final(ranked)@ == insert_ranked(old(ranked)@, h),
{
    let n = ranked.len();
    let mut p: usize = n;
    assert(ranked@.take(n as int) =~= ranked@);
    assert(insert_ranked(ranked@, h) + ranked@.skip(n as int) =~= insert_ranked(ranked@, h));
    while p > 0 && ranked[p - 1].1 > h.1
        invariant
            p <= n,
            ranked@ == old(ranked)@,
            n == ranked@.len(),
            insert_ranked(ranked@, h) == insert_ranked(ranked@.take(p as int), h) + ranked@.skip(p as int),
        decreases p,
    {
        let ghost t = ranked@.take(p as int);
        assert(t.drop_last() =~= ranked@.take(p - 1));
        assert(t.last() == ranked@[p - 1]);
        assert(seq![ranked@[p - 1]] + ranked@.skip(p as int) =~= ranked@.skip(p - 1));
        assert(insert_ranked(ranked@.take(p - 1), h).push(ranked@[p - 1]) + ranked@.skip(p as int)
            =~= insert_ranked(ranked@.take(p - 1), h) + ranked@.skip(p - 1));
        p = p - 1;
    }
    proof {
        let t = ranked@.take(p as int);
        if p > 0 {
            assert(t.last() == ranked@[p - 1]);
            assert(insert_ranked(t, h) == t.push(h));
        } else {
            assert(t =~= Seq::<Hit>::empty());
        }
        assert(insert_ranked(t, h) =~= t.push(h));
    }
    ranked.insert(p, h);
    assert(ranked@ =~= ranked@.take(p as int).push(h) + old(ranked)@.skip(p as int)) by {
        assert(ranked@.take(p as int) =~= old(ranked)@.take(p as int));
    }
    assert(ranked@ =~= old(ranked)@.take(p as int).push(h) + old(ranked)@.skip(p as int));
}

/// The entries of the index that resonate with `query` (Hamming distance at
/// most 3932), nearest first with ties in index order, at most `top_k` of
/// them, as (position, distance) pairs.
pub fn rank_index<P>(query: &Hypervector, index: &Vec<(Hypervector, P)>, top_k: usize) -> (r: Vec<Hit>)
    requires
        query.data@.len() <= PACKED_BYTES,
    ensures
        r@ == first_k(rank_hits(resonant_hits(query.data@, index@)), top_k as nat),
{
    let mut hits: Vec<Hit> = Vec::new();
    let mut i: usize = 0;
    while i < index.len()
        invariant
            i <= index@.len(),
            query.data@.len() <= PACKED_BYTES,
            hits@ == resonant_hits(query.data@, index@.take(i as int)),
        decreases index@.len() - i,
    {
        let ghost pre = index@.take(i + 1);
        assert(pre.drop_last() =~= index@.take(i as int));
        assert(pre.last() == index@[i as int]);
        let d = query.hamming_distance(&index[i].0);
        if d <= RESONANCE_MAX_DISTANCE {
            hits.push((i, d));
        }
        i = i + 1;
    }
    assert(index@.take(index@.len() as int) =~= index@);
    let mut ranked: Vec<Hit> = Vec::new();
    let mut j: usize = 0;
    while j < hits.len()
        invariant
            j <= hits@.len(),
            ranked@ == rank_hits(hits@.take(j as int)),
        decreases hits@.len() - j,
    {
        assert(hits@.take(j + 1).drop_last() =~= hits@.take(j as int));
        insert_hit(&mut ranked, hits[j]);
        j = j + 1;
    }
    assert(hits@.take(hits@.len() as int) =~= hits@);
    if ranked.len() > top_k {
        ranked.truncate(top_k);
    }
    ranked
}

/// Inserting into a ranking that runs nearest first keeps it so.
pub proof fn lemma_insert_ranked_sorted(r: Seq<Hit>, h: Hit)
    requires
        nearest_first(r),
    ensures
        nearest_first(insert_ranked(r, h)),
        insert_ranked(r, h).len() == r.len() + 1,
        forall|i: int| 0 <= i < insert_ranked(r, h).len() ==> #[trigger] insert_ranked(r, h)[i] == h
            || r.contains(insert_ranked(r, h)[i]),
    decreases r.len(),
{
    if r.len() > 0 && r.last().1 > h.1 {
        let d = r.drop_last();
        lemma_insert_ranked_sorted(d, h);
        let m = insert_ranked(d, h);
        assert forall|i: int| 0 <= i < m.len() implies m[i].1 <= r.last().1 by {
            if m[i] != h {
                let w = choose|w: int| 0 <= w < d.len() && d[w] == m[i];
                assert(r[w] == d[w]);
            }
        }
        let out = m.push(r.last());
        assert forall|i: int| 0 <= i < out.len() implies #[trigger] out[i] == h || r.contains(out[i]) by {
            if i < m.len() && m[i] != h {
                let w = choose|w: int| 0 <= w < d.len() && d[w] == m[i];
                assert(r[w] == m[i]);
            } else if i == m.len() {
                assert(r[r.len() - 1] == out[i]);
            }
        }
    } else if r.len() > 0 {
        let out = r.push(h);
        assert forall|i: int| 0 <= i < out.len() implies #[trigger] out[i] == h || r.contains(out[i]) by {
            if i < r.len() {
                assert(r[i] == out[i]);
            }
        }
    } else {
        assert(insert_ranked(r, h) == seq![h]);
    }
}

/// Law: retrieval ranks nearest first: distances never decrease along a
/// ranking.
pub proof fn lemma_rank_sorted(hits: Seq<Hit>)
    ensures
        nearest_first(rank_hits(hits)),
        rank_hits(hits).len() == hits.len(),
    decreases hits.len(),
{
    if hits.len() > 0 {
        lemma_rank_sorted(hits.drop_last());
        lemma_insert_ranked_sorted(rank_hits(hits.drop_last()), hits.last());
    }
}

/// Law: every hit retrieved is within resonance distance of the query.
pub proof fn lemma_resonant_within<P>(query: Seq<u8>, index: Seq<(Hypervector, P)>)
    ensures
        forall|i: int| 0 <= i < resonant_hits(query, index).len() ==> (#[trigger] resonant_hits(query, index)[i]).1
            <= RESONANCE_MAX_DISTANCE,
    decreases index.len(),
{
    if index.len() > 0 {
        lemma_resonant_within(query, index.drop_last());
        let r = resonant_hits(query, index.drop_last());
        let out = resonant_hits(query, index);
        assert forall|i: int| 0 <= i < out.len() implies (#[trigger] out[i]).1 <= RESONANCE_MAX_DISTANCE by {
            if i < r.len() {
                assert(out[i] == r[i]);
            }
        }
    }
}

/// A sequence with one more item at its end contains what it contained and
/// that item.
proof fn lemma_push_contains(s: Seq<Hit>, y: Hit, x: Hit)
    ensures
        s.push(y).contains(x) <==> (s.contains(x) || x == y),
{
    let out = s.push(y);
    if out.contains(x) {
        let w = choose|w: int| 0 <= w < out.len() && out[w] == x;
        if w < s.len() {
            assert(s[w] == x);
        }
    }
    if s.contains(x) {
        let w = choose|w: int| 0 <= w < s.len() && s[w] == x;
        assert(out[w] == x);
    }
    if x == y {
        assert(out[s.len() as int] == x);
    }
}

/// Inserting into a ranking keeps every hit it had and adds the new one.
proof fn lemma_insert_ranked_contains(r: Seq<Hit>, h: Hit, x: Hit)
    ensures
        insert_ranked(r, h).contains(x) <==> (r.contains(x) || x == h),
    decreases r.len(),
{
    if r.len() == 0 {
        lemma_push_contains(r, h, x);
        assert(insert_ranked(r, h) == r.push(h));
    } else if r.last().1 <= h.1 {
        lemma_push_contains(r, h, x);
    } else {
        let d = r.drop_last();
        lemma_insert_ranked_contains(d, h, x);
        lemma_push_contains(insert_ranked(d, h), r.last(), x);
        lemma_push_contains(d, r.last(), x);
        assert(d.push(r.last()) =~= r);
    }
}

/// Law: ranking keeps exactly the hits it is given, no more and no fewer.
pub proof fn lemma_rank_contains(hits: Seq<Hit>, x: Hit)
    ensures
        rank_hits(hits).contains(x) <==> hits.contains(x),
    decreases hits.len(),
{
    if hits.len() > 0 {
        let d = hits.drop_last();
        lemma_rank_contains(d, x);
        lemma_insert_ranked_contains(rank_hits(d), hits.last(), x);
        lemma_push_contains(d, hits.last(), x);
        assert(d.push(hits.last()) =~= hits);
    }
}

/// An index entry holding exactly the query's bits is a hit at distance 0.
proof fn lemma_exact_entry_resonates<P>(query: Seq<u8>, index: Seq<(Hypervector, P)>, i: int)
    requires
        0 <= i < index.len(),
        index[i].0.data@ == query,
    ensures
        resonant_hits(query, index).contains((i as usize, 0u32)),
    decreases index.len(),
{
    let d = index.drop_last();
    let r = resonant_hits(query, d);
    if i == index.len() - 1 {
        crate::distance::lemma_hamming_self(query);
        lemma_push_contains(r, (i as usize, 0u32), (i as usize, 0u32));
    } else {
        assert(d[i] == index[i]);
        lemma_exact_entry_resonates(query, d, i);
        let dist = crate::distance::hamming(query, index.last().0.data@);
        lemma_push_contains(r, ((index.len() - 1) as usize, dist as u32), (i as usize, 0u32));
    }
}

/// Law: what is stored is found by its own bits: when an index entry holds
/// exactly the query's bits, that entry is among the ranked hits, and the
/// first hit is a perfect match (distance 0).
pub proof fn lemma_exact_match_ranked_first<P>(query: Seq<u8>, index: Seq<(Hypervector, P)>, i: int)
    requires
        0 <= i < index.len(),
        index[i].0.data@ == query,
    ensures
        rank_hits(resonant_hits(query, index)).contains((i as usize, 0u32)),
        rank_hits(resonant_hits(query, index)).len() > 0,
        rank_hits(resonant_hits(query, index))[0].1 == 0,
{
    let hits = resonant_hits(query, index);
    let ranked = rank_hits(hits);
    lemma_exact_entry_resonates(query, index, i);
    lemma_rank_contains(hits, (i as usize, 0u32));
    lemma_rank_sorted(hits);
    let w = choose|w: int| 0 <= w < ranked.len() && ranked[w] == (i as usize, 0u32);
    assert(ranked[0].1 <= ranked[w].1);
}

/// Law: the resonance cut is similarity above 0.52: a distance `d` out of
/// 8192 bits is within it exactly when `1 - d / 8192 > 0.52`.
pub proof fn lemma_resonance_is_similarity_above_052(d: nat)
    ensures
        d <= RESONANCE_MAX_DISTANCE <==> 100 * (DIMS - d) > 52 * DIMS,
{
}

/// Law: the resonance filter is complete and exact: position `i` of the
/// index is a hit exactly when its entry is within resonance distance of the
/// query, and then the hit carries that entry's Hamming distance.
pub proof fn lemma_resonant_hits_complete<P>(query: Seq<u8>, index: Seq<(Hypervector, P)>, i: int)
    requires
        0 <= i < index.len(),
        index.len() <= usize::MAX + 1,
    ensures
        crate::distance::hamming(query, index[i].0.data@) <= RESONANCE_MAX_DISTANCE ==> resonant_hits(
            query,
            index,
        ).contains((i as usize, crate::distance::hamming(query, index[i].0.data@) as u32)),
        (exists|d: u32| #[trigger] resonant_hits(query, index).contains((i as usize, d)))
            ==> crate::distance::hamming(query, index[i].0.data@) <= RESONANCE_MAX_DISTANCE,
        forall|d: u32| #[trigger] resonant_hits(query, index).contains((i as usize, d))
            ==> d == crate::distance::hamming(query, index[i].0.data@),
    decreases index.len(),
{
    let dl = index.drop_last();
    let r = resonant_hits(query, dl);
    let last = index.len() - 1;
    let dlast = crate::distance::hamming(query, index.last().0.data@);
    lemma_resonant_positions(query, dl);
    if i < last {
        assert(dl[i] == index[i]);
        lemma_resonant_hits_complete(query, dl, i);
    }
    assert forall|d: u32| #[trigger] resonant_hits(query, index).contains((i as usize, d)) implies (r.contains(
        (i as usize, d),
    ) && i < last) || (i == last && d == dlast && dlast <= RESONANCE_MAX_DISTANCE) by {
        if dlast <= RESONANCE_MAX_DISTANCE {
            lemma_push_contains(r, (last as usize, dlast as u32), (i as usize, d));
            if r.contains((i as usize, d)) {
                let w = choose|w: int| 0 <= w < r.len() && r[w] == (i as usize, d);
                assert((r[w].0 as int) < dl.len());
            }
        } else {
            let w = choose|w: int| 0 <= w < r.len() && r[w] == (i as usize, d);
            assert((r[w].0 as int) < dl.len());
        }
    }
    if i == last && dlast <= RESONANCE_MAX_DISTANCE {
        lemma_push_contains(r, (last as usize, dlast as u32), (i as usize, dlast as u32));
    }
    if i < last && crate::distance::hamming(query, index[i].0.data@) <= RESONANCE_MAX_DISTANCE {
        if dlast <= RESONANCE_MAX_DISTANCE {
            lemma_push_contains(
                r,
                (last as usize, dlast as u32),
                (i as usize, crate::distance::hamming(query, index[i].0.data@) as u32),
            );
        }
    }
}

/// Every hit names a position of the index.
proof fn lemma_resonant_positions<P>(query: Seq<u8>, index: Seq<(Hypervector, P)>)
    ensures
        forall|w: int| 0 <= w < resonant_hits(query, index).len() ==> (#[trigger] resonant_hits(query, index)[w]).0
            < index.len(),
    decreases index.len(),
{
    if index.len() > 0 {
        lemma_resonant_positions(query, index.drop_last());
        let r = resonant_hits(query, index.drop_last());
        let out = resonant_hits(query, index);
        assert forall|w: int| 0 <= w < out.len() implies (#[trigger] out[w]).0 < index.len() by {
            if w < r.len() {
                assert(out[w] == r[w]);
            }
        }
    }
}

/// Puts `entry` into the index: in place of the first entry with the same
/// concept, whose position is returned, or else at the end (`None`).
pub fn upsert_index<P>(index: &mut Vec<(Hypervector, P)>, entry: (Hypervector, P)) -> (r: Option<usize>)
    ensures
        match r {
            Some(i) => {
                &&& i < old(index)@.len()
                &&& old(index)@[i as int].0.concept_id@ == entry.0.concept_id@
                &&& forall|j: int| 0 <= j < i ==> (#[trigger] old(index)@[j]).0.concept_id@ != entry.0.concept_id@
                &&& final(index)@ == old(index)@.update(i as int, entry)
            },
            None => {
                &&& forall|j: int| 0 <= j < old(index)@.len() ==> (#[trigger] old(index)@[j]).0.concept_id@
                    != entry.0.concept_id@
                &&& final(index)@ == old(index)@.push(entry)
            },
        },
{
    let mut i: usize = 0;
    while i < index.len()
        invariant
            i <= index@.len(),
            index@ == old(index)@,
            forall|j: int| 0 <= j < i ==> (#[trigger] index@[j]).0.concept_id@ != entry.0.concept_id@,
        decreases index@.len() - i,
    {
        if index[i].0.concept_id == entry.0.concept_id {
            index.set(i, entry);
            return Some(i);
        }
        i = i + 1;
    }
    index.push(entry);
    None
}

/// Splits `s` at each `\n\n`, scanning left to right, with `cur` the part of
/// the current piece already read: the pieces `str::split("\n\n")` gives.
pub open spec fn split_blank_lines(s: Seq<char>, cur: Seq<char>) -> Seq<Seq<char>>
    decreases s.len(),
{
    if s.len() == 0 {
        seq![cur]
    } else if s.len() >= 2 && s[0] == '\n' && s[1] == '\n' {
        seq![cur] + split_blank_lines(s.skip(2), Seq::empty())
    } else {
        split_blank_lines(s.drop_first(), cur.push(s[0]))
    }
}

/// The pieces that are not blank, in order.
pub open spec fn non_blank(ps: Seq<Seq<char>>) -> Seq<Seq<char>>
    decreases ps.len(),
{
    if ps.len() == 0 {
        Seq::empty()
    } else {
        let r = non_blank(ps.drop_last());
        if crate::text::trimmed(ps.last()).len() != 0 {
            r.push(ps.last())
        } else {
            r
        }
    }
}

/// The paragraphs of a document: its pieces between blank lines (`\n\n`)
/// that hold more than whitespace.
pub open spec fn paragraph_texts(content: Seq<char>) -> Seq<Seq<char>> {
    non_blank(split_blank_lines(content, Seq::empty()))
}

/// The views of a vector of strings.
pub open spec fn string_views(v: Seq<String>) -> Seq<Seq<char>> {
    Seq::new(v.len(), |i: int| v[i]@)
}

/// The paragraphs of a document, in order.
pub fn paragraphs(content: &str) -> (ps: Vec<String>)
    ensures
        string_views(ps@) == paragraph_texts(content@),
{
    let chars = chars_of(content);
    let ghost s = content@;
    let n = chars.len();
    let mut pieces: Vec<String> = Vec::new();
    let mut cur = String::new();
    let mut i: usize = 0;
    assert(s.skip(0) =~= s);
    while i < n
        invariant
            chars@ == s,
            n == s.len(),
            i <= n,
            split_blank_lines(s, Seq::empty()) == string_views(pieces@) + split_blank_lines(s.skip(i as int), cur@),
        decreases n - i,
    {
        if i + 1 < n && chars[i] == '\n' && chars[i + 1] == '\n' {
            let ghost rest = s.skip(i as int);
            assert(rest.skip(2) =~= s.skip(i + 2));
            assert(rest[0] == '\n' && rest[1] == '\n');
            let ghost old_pieces = pieces@;
            let done = cur;
            pieces.push(done);
            cur = String::new();
            assert(string_views(pieces@) =~= string_views(old_pieces) + seq![done@]);
            i = i + 2;
        } else {
            let ghost rest = s.skip(i as int);
            assert(rest.drop_first() =~= s.skip(i + 1));
            assert(rest[0] == chars@[i as int]);
            push_char(&mut cur, chars[i]);
            i = i + 1;
        }
    }
    assert(s.skip(n as int) =~= Seq::<char>::empty());
    let ghost old_pieces = pieces@;
    pieces.push(cur);
    assert(string_views(pieces@) =~= string_views(old_pieces) + seq![pieces@[pieces@.len() - 1]@]);
    assert(split_blank_lines(s, Seq::empty()) =~= string_views(pieces@));
    let mut out: Vec<String> = Vec::new();
    let mut k: usize = 0;
    while k < pieces.len()
        invariant
            k <= pieces@.len(),
            string_views(out@) == non_blank(string_views(pieces@).take(k as int)),
        decreases pieces@.len() - k,
    {
        let ghost pre = string_views(pieces@).take(k + 1);
        assert(pre.drop_last() =~= string_views(pieces@).take(k as int));
        assert(pre.last() == pieces@[k as int]@);
        let ghost before = out@;
        if !crate::text::is_blank(pieces[k].as_str()) {
            out.push(pieces[k].clone());
            assert(string_views(out@) =~= string_views(before).push(pieces@[k as int]@));
        }
        k = k + 1;
    }
    assert(string_views(pieces@).take(pieces@.len() as int) =~= string_views(pieces@));
    out
}

/// The sum of the code points of a text.
pub open spec fn code_point_sum(s: Seq<char>) -> nat
    decreases s.len(),
{
    if s.len() == 0 {
        0
    } else {
        code_point_sum(s.drop_last()) + (s.last() as u32) as nat
    }
}

/// The seed of a paragraph's place in the memory sphere: the sum of its code
/// points, which must fit a `u32`.
pub fn paragraph_seed(p: &str) -> (seed: u32)
    requires
        code_point_sum(p@) <= u32::MAX,
    ensures
        seed == code_point_sum(p@),
{
    let chars = chars_of(p);
    let mut total: u32 = 0;
    let mut i: usize = 0;
    while i < chars.len()
        invariant
            chars@ == p@,
            i <= chars@.len(),
            code_point_sum(p@) <= u32::MAX,
            total == code_point_sum(p@.take(i as int)),
        decreases chars@.len() - i,
    {
        assert(p@.take(i + 1).drop_last() =~= p@.take(i as int));
        proof {
            lemma_code_point_sum_prefix(p@, i + 1);
        }
        total = total + chars[i] as u32;
        i = i + 1;
    }
    assert(p@.take(chars@.len() as int) =~= p@);
    total
}

/// A prefix's code-point sum is at most the whole text's.
proof fn lemma_code_point_sum_prefix(s: Seq<char>, k: int)
    requires
        0 <= k <= s.len(),
    ensures
        code_point_sum(s.take(k)) <= code_point_sum(s),
    decreases s.len() - k,
{
    if k < s.len() {
        lemma_code_point_sum_prefix(s, k + 1);
        assert(s.take(k + 1).drop_last() =~= s.take(k));
    } else {
        assert(s.take(k) =~= s);
    }
}

/// The task a book is read under: `Book: <title>`.
pub fn book_task(title: &str) -> (t: String)
    ensures
        t@ == "Book: "@ + title@,
{
    let mut t = String::from_str("Book: ");
    t.append(title);
    t
}

/// The concept a book paragraph is remembered by: `Book:<title>:` followed by
/// the paragraph's first fifteen characters.
pub fn book_concept(title: &str, paragraph: &str) -> (c: String)
    ensures
        c@ == "Book:"@ + title@ + ":"@ + prefix_chars(paragraph@, 15),
{
    let mut c = String::from_str("Book:");
    c.append(title);
    c.append(":");
    let head = take_chars(paragraph, 15);
    c.append(head.as_str());
    c
}

/// Every text in the tree is short enough to encode (fewer than 2^31 + 2
/// characters).
pub open spec fn ast_encodable(node: ASTNode) -> bool
    decreases node,
{
    match node {
        ASTNode::Leaf { value } => value@.len() < 0x8000_0002,
        ASTNode::Tree { op, left, right } => op@.len() < 0x8000_0002 && ast_encodable(*left)
            && ast_encodable(*right),
    }
}

/// The bytes of a tree's trigram encoding: leaves are the trigram vectors of
/// their values; an inner node binds its operator's trigram vector with the
/// bundle of the left encoding and the right encoding permuted by one.
pub open spec fn ast_data(node: ASTNode) -> Seq<u8>
    decreases node,
{
    match node {
        ASTNode::Leaf { value } => ngram_data(value@),
        ASTNode::Tree { op, left, right } => xor_bytes(
            ngram_data(op@),
            majority(seq![ast_data(*left), crate::permute::permuted(ast_data(*right), crate::permute::rotation_offset(1))], 0),
        ),
    }
}

/// Every trigram encoding of a tree is a full 1024-byte vector.
pub proof fn lemma_ast_data_len(node: ASTNode)
    ensures
        ast_data(node).len() == PACKED_BYTES,
    decreases node,
{
    match node {
        ASTNode::Leaf { value } => {
            if value@.len() >= NGRAM_SIZE {
                assert(ngram_data(value@) == majority(ngram_datas(value@), 0));
            }
        },
        ASTNode::Tree { op, left, right } => {
            if op@.len() >= NGRAM_SIZE {
                assert(ngram_data(op@) == majority(ngram_datas(op@), 0));
            }
        },
    }
}

/// The name of a tree's trigram encoding: a leaf's value, or for an inner
/// node the name that binding its operator with a bundle gives.
pub open spec fn ast_concept(node: ASTNode) -> Seq<char> {
    match node {
        ASTNode::Leaf { value } => value@,
        ASTNode::Tree { op, .. } => "bound("@ + op@ + ","@ + "bundle"@ + ")"@,
    }
}

/// The source text of a tree's encoding: a leaf's value or an inner node's
/// operator.
pub open spec fn ast_source(node: ASTNode) -> Seq<char> {
    match node {
        ASTNode::Leaf { value } => value@,
        ASTNode::Tree { op, .. } => op@,
    }
}

/// The trigram encoding of an expression tree (leaves named by their
/// values; inner nodes named as binding names them).
pub fn encode_ast(node: &ASTNode) -> (hv: Hypervector)
    requires
        ast_encodable(*node),
    ensures
        hv.data@ == ast_data(*node),
        hv.concept_id@ == ast_concept(*node),
        hv.source_text@ == ast_source(*node),
    decreases node,
{
    match node {
        ASTNode::Leaf { value } => from_string(value.as_str(), Some(value.as_str())),
        ASTNode::Tree { op, left, right } => {
            let op_hv = from_string(op.as_str(), Some(op.as_str()));
            let left_hv = encode_ast(left);
            let right_hv = encode_ast(right);
            proof {
                lemma_ast_data_len(**left);
                lemma_ast_data_len(**right);
            }
            let right_hv = right_hv.permute(1);
            let pair = vec![left_hv, right_hv];
            proof {
                assert(datas(pair@) =~= seq![ast_data(**left), crate::permute::permuted(ast_data(**right), crate::permute::rotation_offset(1))]);
            }
            proof {
                reveal_strlit("bundle");
            }
            let b = bundle(pair.as_slice());
            bind(&op_hv, &b)
        },
    }
}

/// Law: a leaf is encoded as its text is: the encoding of a leaf is the
/// trigram vector `from_string` gives for its value.
pub proof fn lemma_leaf_encodes_as_text(value: String)
    ensures
        ast_data(ASTNode::Leaf { value }) == ngram_data(value@),
{
}

/// Law: unbinding the operator's vector from an inner node's encoding gives
/// back the bundle of its left child's encoding and its right child's
/// encoding permuted by one.
pub proof fn lemma_tree_unbinds_operator(op: String, left: Box<ASTNode>, right: Box<ASTNode>)
    ensures
        xor_bytes(ast_data(ASTNode::Tree { op, left, right }), ngram_data(op@)) == majority(
            seq![ast_data(*left), crate::permute::permuted(ast_data(*right), crate::permute::rotation_offset(1))],
            0,
        ),
{
    let b = majority(
        seq![ast_data(*left), crate::permute::permuted(ast_data(*right), crate::permute::rotation_offset(1))],
        0,
    );
    let o = ngram_data(op@);
    crate::hypervector::lemma_bind_commutes(o, b);
    crate::hypervector::lemma_bind_self_inverse(b, o);
}

/// An agent whose actions are the trigram vectors of their names, with the
/// policy the trigram vector of `blank_slate` (named `q_brain`) and no
/// experience.
pub fn new_agent<R>(action_names: &[&str]) -> (a: HDQAgent<R>)
    requires
        forall|i: int| 0 <= i < action_names@.len() ==> (#[trigger] action_names@[i])@.len() < 0x8000_0002,
    ensures
        a.wf(),
        forall|n: Seq<char>| #[trigger] a.actions@.contains_key(n) <==> name_views(action_names@).contains(n),
        forall|n: Seq<char>| #[trigger] a.actions@.contains_key(n) ==> a.actions@[n].data@ == ngram_data(n)
            && a.actions@[n].concept_id@ == n,
        a.q_brain.data@ == ngram_data("blank_slate"@),
        a.q_brain.concept_id@ == "q_brain"@,
        a.experience_buffer@.len() == 0,
{
    let mut actions: NamedStore<Hypervector> = NamedStore::new();
    let mut i: usize = 0;
    while i < action_names.len()
        invariant
            i <= action_names@.len(),
            forall|i: int| 0 <= i < action_names@.len() ==> (#[trigger] action_names@[i])@.len() < 0x8000_0002,
            actions.wf(),
            forall|x: Seq<char>| #[trigger] actions@.contains_key(x) <==> name_views(action_names@).take(i as int).contains(x),
            forall|n: Seq<char>| #[trigger] actions@.contains_key(n) ==> actions@[n].data@ == ngram_data(n)
                && actions@[n].concept_id@ == n,
            forall|j: int|
                0 <= j < actions.values().len() ==> (#[trigger] actions.values()[j]).data@.len()
                    <= PACKED_BYTES,
        decreases action_names@.len() - i,
    {
        let n = action_names[i];
        let hv = from_string(n, Some(n));
        let ghost before = actions;
        actions.insert(String::from_str(n), hv);
        proof {
            let pre = name_views(action_names@).take(i as int);
            assert(name_views(action_names@).take(i + 1) =~= pre.push(n@));
            assert forall|x: Seq<char>| pre.push(n@).contains(x) <==> pre.contains(x) || x == n@ by {
                if pre.push(n@).contains(x) && x != n@ {
                    let w = choose|w: int| 0 <= w < pre.push(n@).len() && pre.push(n@)[w] == x;
                    assert(pre[w] == x);
                }
                if pre.contains(x) {
                    let w = choose|w: int| 0 <= w < pre.len() && pre[w] == x;
                    assert(pre.push(n@)[w] == x);
                }
                if x == n@ {
                    assert(pre.push(n@)[pre.len() as int] == x);
                }
            }
            assert forall|x: Seq<char>| #[trigger] actions@.contains_key(x) <==> name_views(action_names@).take(i + 1).contains(x) by {
                assert(actions@.contains_key(x) <==> before@.contains_key(x) || x == n@);
            }
            assert forall|j: int| 0 <= j < actions.values().len() implies (#[trigger] actions.values()[j]).data@.len() <= PACKED_BYTES by {
                actions.lemma_lookup(j);
                let k = actions.names()[j];
                if k != n@ {
                    assert(before@.contains_key(k));
                    let bj = before.names().index_of(k);
                    before.lemma_lookup(bj);
                }
            }
        }
        i = i + 1;
    }
    assert(name_views(action_names@).take(action_names@.len() as int) =~= name_views(action_names@));
    proof {
        reveal_strlit("blank_slate");
    }
    HDQAgent {
        actions,
        q_brain: from_string("blank_slate", Some("q_brain")),
        experience_buffer: VecDeque::with_capacity(EXPERIENCE_CAPACITY),
    }
}

} // verus!
