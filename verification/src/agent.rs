//! A reinforcement-learning agent whose policy is a single hypervector.

use crate::bundle::{bundle, majority};
use crate::distance::hamming;
use crate::hypervector::{atomic_data, xor_bytes, Hypervector};
use crate::store::NamedStore;
use crate::PACKED_BYTES;
use std::collections::VecDeque;
use vstd::prelude::*;
use vstd::string::StringSliceAdditionalSpecFns;

verus! {

/// The most experiences the agent keeps.
pub const EXPERIENCE_CAPACITY: usize = 1000;

/// An agent with named actions, a policy vector (`q_brain`), and a bounded
/// replay buffer of experiences `(state, action, reward)`; `R` is how a reward
/// is recorded.
pub struct HDQAgent<R> {
    pub actions: NamedStore<Hypervector>,
    pub q_brain: Hypervector,
    pub experience_buffer: VecDeque<(Hypervector, String, R)>,
}

/// The views of a slice of string slices.
pub open spec fn name_views(names: Seq<&str>) -> Seq<Seq<char>> {
    Seq::new(names.len(), |i: int| names[i]@)
}

impl<R> HDQAgent<R> {
    /// Consistent: each action named once, all vectors at most 1024 bytes,
    /// and at most 1000 experiences kept.
    pub open spec fn wf(&self) -> bool {
        &&& self.actions.wf()
        &&& forall|i: int|
            0 <= i < self.actions.values().len() ==> (#[trigger] self.actions.values()[i]).data@.len()
                <= PACKED_BYTES
        &&& self.q_brain.data@.len() <= PACKED_BYTES
        &&& self.experience_buffer@.len() <= EXPERIENCE_CAPACITY
    }

    /// The distance of action `i` from the intent for `state`: the policy
    /// bound with the state.
    pub open spec fn action_distance(&self, i: int, state: Seq<u8>) -> nat {
        hamming(self.actions.values()[i].data@, xor_bytes(self.q_brain.data@, state))
    }

    /// An agent with the given actions, each the hypervector of its name
    /// (named by it), a blank policy, and no experience.
    pub fn new(action_names: &[&str]) -> (a: HDQAgent<R>)
        ensures
            a.wf(),
            forall|n: Seq<char>| #[trigger] a.actions@.contains_key(n) <==> name_views(action_names@).contains(n),
            forall|n: Seq<char>| #[trigger] a.actions@.contains_key(n) ==> a.actions@[n].data@
                == atomic_data(vstd::utf8::encode_utf8(n)) && a.actions@[n].concept_id@ == n,
            a.q_brain.data@ == atomic_data("blank_slate".spec_bytes()),
            a.q_brain.concept_id@ == "q_brain"@,
            a.experience_buffer@.len() == 0,
    {
        let mut actions: NamedStore<Hypervector> = NamedStore::new();
        let mut i: usize = 0;
        while i < action_names.len()
            invariant
                i <= action_names@.len(),
                actions.wf(),
                forall|x: Seq<char>| #[trigger] actions@.contains_key(x) <==> name_views(action_names@).take(i as int).contains(x),
                forall|n: Seq<char>| #[trigger] actions@.contains_key(n) ==> actions@[n].data@
                    == atomic_data(vstd::utf8::encode_utf8(n)) && actions@[n].concept_id@ == n,
                forall|j: int|
                    0 <= j < actions.values().len() ==> (#[trigger] actions.values()[j]).data@.len()
                        <= PACKED_BYTES,
            decreases action_names@.len() - i,
        {
            let n = action_names[i];
            let hv = Hypervector::from_string(n, Some(n));
            let ghost before = actions;
            actions.insert(String::from_str(n), hv);
            proof {
                let pre = name_views(action_names@).take(i as int);
                assert(name_views(action_names@).take(i + 1) =~= pre.push(n@));
                assert forall|x: Seq<char>| pre.push(n@).contains(x) <==> pre.contains(x) || x == n@ by {
                    if pre.push(n@).contains(x) && x != n@ {
                        let w = choose|w: int| 0 <= w < pre.push(n@).len() && pre.push(n@)[w] == x;
                        assert(pre[w] == x);
                    }
                    if pre.contains(x) {
                        let w = choose|w: int| 0 <= w < pre.len() && pre[w] == x;
                        assert(pre.push(n@)[w] == x);
                    }
                    if x == n@ {
                        assert(pre.push(n@)[pre.len() as int] == x);
                    }
                }
                assert forall|x: Seq<char>| #[trigger] actions@.contains_key(x) <==> name_views(action_names@).take(i + 1).contains(x) by {
                    assert(actions@.contains_key(x) <==> before@.contains_key(x) || x == n@);
                }
                assert forall|j: int| 0 <= j < actions.values().len() implies (#[trigger] actions.values()[j]).data@.len() <= PACKED_BYTES by {
                    actions.lemma_lookup(j);
                    let k = actions.names()[j];
                    if k != n@ {
                        assert(before@.contains_key(k));
                        let bj = before.names().index_of(k);
                        before.lemma_lookup(bj);
                    }
                }
            }
            i = i + 1;
        }
        assert(name_views(action_names@).take(action_names@.len() as int) =~= name_views(action_names@));
        HDQAgent {
            actions,
            q_brain: Hypervector::from_string("blank_slate", Some("q_brain")),
            experience_buffer: VecDeque::with_capacity(EXPERIENCE_CAPACITY),
        }
    }

    /// The action whose vector is closest (least Hamming distance, so most
    /// similar) to the policy bound with the state; among equally close ones
    /// the last in the actions' order; the empty name when there are none.
    pub fn choose_action(&self, state_hv: &Hypervector) -> (name: String)
        requires
            self.wf(),
        ensures
            self.actions.names().len() == 0 ==> name@ == Seq::<char>::empty(),
            self.actions.names().len() > 0 ==> exists|i: int|
                0 <= i < self.actions.names().len() && name@ == self.actions.names()[i]
                    && (forall|j: int| 0 <= j < self.actions.names().len() ==> self.action_distance(i, state_hv.data@)
                        <= #[trigger] self.action_distance(j, state_hv.data@))
                    && (forall|j: int| i < j < self.actions.names().len() ==> self.action_distance(i, state_hv.data@)
                        < #[trigger] self.action_distance(j, state_hv.data@)),
    {
        let intent = self.q_brain.bind(state_hv);
        let n = self.actions.len();
        if n == 0 {
            return String::new();
        }
        let mut best: usize = 0;
        let mut best_d: u32 = self.actions.value_at(0).hamming_distance(&intent);
        let mut i: usize = 1;
        while i < n
            invariant
                1 <= i <= n,
                n == self.actions.names().len(),
                self.wf(),
                intent.data@ == xor_bytes(self.q_brain.data@, state_hv.data@),
                best < i,
                best_d == self.action_distance(best as int, state_hv.data@),
                forall|j: int| 0 <= j < i ==> best_d <= #[trigger] self.action_distance(j, state_hv.data@),
                forall|j: int| best < j < i ==> best_d < #[trigger] self.action_distance(j, state_hv.data@),
            decreases n - i,
        {
            let d = self.actions.value_at(i).hamming_distance(&intent);
            if d <= best_d {
                best = i;
                best_d = d;
            }
            i = i + 1;
        }
        self.actions.name_at(best).clone()
    }

    /// Records an experience, dropping the oldest when 1000 are kept; when
    /// the reward counts as positive and the action is known, the policy
    /// becomes the bundle of itself and the state bound with the action.
    pub fn learn(&mut self, state: &Hypervector, action_name: &str, reward: R, positive: bool)
        requires
            old(self).wf(),
        ensures
            final(self).wf(),
            final(self).actions == old(self).actions,
            ({
                let kept = if old(self).experience_buffer@.len() >= EXPERIENCE_CAPACITY {
                    old(self).experience_buffer@.drop_first()
                } else {
                    old(self).experience_buffer@
                };
                &&& final(self).experience_buffer@.drop_last() == kept
                &&& final(self).experience_buffer@.len() == kept.len() + 1
                &&& final(self).experience_buffer@.last().0.data@ == state.data@
                &&& final(self).experience_buffer@.last().0.concept_id@ == state.concept_id@
                &&& final(self).experience_buffer@.last().0.source_text@ == state.source_text@
                &&& final(self).experience_buffer@.last().1@ == action_name@
                &&& final(self).experience_buffer@.last().2 == reward
            }),
            positive && old(self).actions@.contains_key(action_name@) ==> final(self).q_brain.data@
                == majority(
                seq![old(self).q_brain.data@, xor_bytes(state.data@, old(self).actions@[action_name@].data@)],
                0,
            ) && final(self).q_brain.concept_id@ == "bundle"@,
            !(positive && old(self).actions@.contains_key(action_name@)) ==> final(self).q_brain
                == old(self).q_brain,
    {
        if self.experience_buffer.len() >= EXPERIENCE_CAPACITY {
            let _ = self.experience_buffer.pop_front();
        }
        let ghost kept = self.experience_buffer@;
        self.experience_buffer.push_back((state.copy(), String::from_str(action_name), reward));
        assert(self.experience_buffer@.drop_last() =~= kept);
        if positive {
            match self.actions.get(action_name) {
                Some(act_hv) => {
                    let exp = state.bind(act_hv);
                    let pair = vec![self.q_brain.copy(), exp];
                    proof {
                        assert(crate::bundle::datas(pair@) =~= seq![old(self).q_brain.data@, xor_bytes(state.data@, old(self).actions@[action_name@].data@)]);
                        let k = self.actions.names().index_of(action_name@);
                        self.actions.lemma_lookup(k);
                        assert(pair@[0].data@.len() <= PACKED_BYTES);
                        assert(pair@[1].data@.len() <= PACKED_BYTES);
                    }
                    self.q_brain = bundle(pair.as_slice());
                },
                None => {},
            }
        }
    }
}

} // verus!
