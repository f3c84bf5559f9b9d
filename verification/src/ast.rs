//! Expression trees and their hypervector encoding.

use crate::bubble::{MemoryTier, MemoryTrace, UnifiedKnowledgeBubble};
use crate::bundle::{bundle, datas, majority};
use crate::hypervector::{atomic_data, xor_bytes, Hypervector};
use crate::permute::{permuted, rotation_offset};
use crate::text::prefix_chars;
use crate::PACKED_BYTES;
use vstd::prelude::*;
use vstd::string::StringSliceAdditionalSpecFns;
use vstd::utf8::encode_utf8;

verus! {

/// A binary expression tree: leaves carry a value, inner nodes an operator.
pub enum ASTNode {
    Leaf { value: String },
    Tree { op: String, left: Box<ASTNode>, right: Box<ASTNode> },
}

/// The number of nodes of a tree.
pub open spec fn ast_size(node: ASTNode) -> nat
    decreases node,
{
    match node {
        ASTNode::Leaf { .. } => 1,
        ASTNode::Tree { left, right, .. } => 1 + ast_size(*left) + ast_size(*right),
    }
}

/// The bytes of a tree's encoding: a leaf is the atomic vector of its value;
/// an inner node binds the atomic vector of its operator with the bundle of
/// the left child's encoding and the right child's encoding permuted by one.
pub open spec fn ast_data(node: ASTNode) -> Seq<u8>
    decreases node,
{
    match node {
        ASTNode::Leaf { value } => atomic_data(encode_utf8(value@)),
        ASTNode::Tree { op, left, right } => xor_bytes(
            atomic_data(encode_utf8(op@)),
            majority(seq![ast_data(*left), permuted(ast_data(*right), rotation_offset(1))], 0),
        ),
    }
}

/// The name of a tree's encoding: a leaf's value, or for an inner node the
/// name that binding the operator with a bundle gives.
pub open spec fn ast_concept(node: ASTNode) -> Seq<char> {
    match node {
        ASTNode::Leaf { value } => value@,
        ASTNode::Tree { op, .. } => "bound_"@ + op@ + "_"@ + "bundle"@,
    }
}

/// The source text of a tree's encoding: a leaf's value or an inner node's
/// operator.
pub open spec fn ast_source(node: ASTNode) -> Seq<char> {
    match node {
        ASTNode::Leaf { value } => value@,
        ASTNode::Tree { op, .. } => op@,
    }
}

/// Law: a leaf is encoded as its text is: the encoding of a leaf is the
/// atomic vector `Hypervector::from_string` gives for its value.
pub proof fn lemma_leaf_encodes_as_text(value: String)
    ensures
        ast_data(ASTNode::Leaf { value }) == atomic_data(encode_utf8(value@)),
{
}

/// Every encoding is a full 1024-byte vector.
pub proof fn lemma_ast_data_len(node: ASTNode)
    ensures
        ast_data(node).len() == PACKED_BYTES,
    decreases node,
{
    match node {
        ASTNode::Leaf { value } => {},
        ASTNode::Tree { op, left, right } => {},
    }
}

impl ASTNode {
    /// A leaf holding `v`.
    pub fn atom(v: &str) -> (n: ASTNode)
        ensures
            n matches ASTNode::Leaf { value } && value@ == v@,
    {
        ASTNode::Leaf { value: String::from_str(v) }
    }

    /// An inner node with operator `op` over `l` and `r`.
    pub fn tree(op: &str, l: ASTNode, r: ASTNode) -> (n: ASTNode)
        ensures
            n matches ASTNode::Tree { op: o, left, right } && o@ == op@ && *left == l && *right
                == r,
    {
        ASTNode::Tree { op: String::from_str(op), left: Box::new(l), right: Box::new(r) }
    }

    /// The number of nodes in the tree.
    pub fn get_size(&self) -> (n: usize)
        requires
            ast_size(*self) <= usize::MAX,
        ensures
            n == ast_size(*self),
        decreases self,
    {
        match self {
            ASTNode::Leaf { .. } => 1,
            ASTNode::Tree { left, right, .. } => 1 + left.get_size() + right.get_size(),
        }
    }
}

/// Reasoning over a knowledge bubble: facts as bound triples, and the
/// encoding of expression trees.
pub struct CognitiveEngine<'a, P> {
    pub bubble: &'a mut UnifiedKnowledgeBubble<P>,
}

/// The key a fact is stored under: `SPO:<subject>_<predicate>_<object>`.
pub open spec fn fact_key(subject: Seq<char>, predicate: Seq<char>, object: Seq<char>) -> Seq<char> {
    "SPO:"@ + subject + "_"@ + predicate + "_"@ + object
}

impl<'a, P> CognitiveEngine<'a, P> {
    /// An engine working on `bubble`.
    pub fn new(bubble: &'a mut UnifiedKnowledgeBubble<P>) -> (e: CognitiveEngine<'a, P>)
        ensures
            *e.bubble == *old(bubble),
            *final(e.bubble) == *final(bubble),
    {
        CognitiveEngine { bubble }
    }

    /// Stores the fact (subject, predicate, object) in semantic memory: the
    /// binding of the three hypervectors, as a semantic trace at `place`, under
    /// the key `SPO:<subject>_<predicate>_<object>`.
    pub fn learn_fact(&mut self, subject: &str, predicate: &str, object: &str, place: P)
        requires
            old(self).bubble.wf(),
        ensures
            final(self).bubble.wf(),
            final(self).bubble.semantic_memory@.dom() == old(self).bubble.semantic_memory@.dom().insert(
                fact_key(subject@, predicate@, object@),
            ),
            forall|k: Seq<char>| #![trigger final(self).bubble.semantic_memory@[k]]
                k != fact_key(subject@, predicate@, object@) && old(self).bubble.semantic_memory@.contains_key(k)
                ==> final(self).bubble.semantic_memory@[k] == old(self).bubble.semantic_memory@[k],
            ({
                let t = final(self).bubble.semantic_memory@[fact_key(subject@, predicate@, object@)];
                &&& t.hv.data@ == xor_bytes(
                    xor_bytes(atomic_data(subject.spec_bytes()), atomic_data(predicate.spec_bytes())),
                    atomic_data(object.spec_bytes()),
                )
                &&& t.hv.concept_id@ == "bound_"@ + ("bound_"@ + prefix_chars(subject@, 50) + "_"@
                    + prefix_chars(predicate@, 50)) + "_"@ + prefix_chars(object@, 50)
                &&& t.hv.source_text@ == subject@
                &&& t.tier == MemoryTier::Semantic
                &&& t.task_context is None
                &&& t.place == place
            }),
            final(self).bubble.episodic_buffer == old(self).bubble.episodic_buffer,
            final(self).bubble.procedural_memory == old(self).bubble.procedural_memory,
            final(self).bubble.task_vectors == old(self).bubble.task_vectors,
            final(self).bubble.active_task == old(self).bubble.active_task,
    {
        let triple = Hypervector::from_string(subject, None).bind(
            &Hypervector::from_string(predicate, None),
        ).bind(&Hypervector::from_string(object, None));
        let mut key = String::from_str("SPO:");
        key.append(subject);
        key.append("_");
        key.append(predicate);
        key.append("_");
        key.append(object);
        let trace = MemoryTrace::new(triple, MemoryTier::Semantic, place, None);
        self.bubble.semantic_memory.insert(key, trace);
        assert(self.bubble.semantic_memory@.dom() =~= old(self).bubble.semantic_memory@.dom().insert(
            fact_key(subject@, predicate@, object@),
        ));
    }
}

impl<'a, P> CognitiveEngine<'a, P> {
    /// The encoding of a tree: leaves are the hypervectors of their values,
    /// named by them; an inner node binds its operator's hypervector with the
    /// bundle of the left encoding and the right encoding permuted by one.
    pub fn encode_ast(node: &ASTNode) -> (hv: Hypervector)
        ensures
            hv.data@ == ast_data(*node),
            hv.concept_id@ == ast_concept(*node),
            hv.source_text@ == ast_source(*node),
        decreases node,
    {
        match node {
            ASTNode::Leaf { value } => Hypervector::from_string(value.as_str(), Some(value.as_str())),
            ASTNode::Tree { op, left, right } => {
                let op_hv = Hypervector::from_string(op.as_str(), Some(op.as_str()));
                let left_hv = Self::encode_ast(left);
                let right_hv = Self::encode_ast(right);
                proof {
                    lemma_ast_data_len(**left);
                    lemma_ast_data_len(**right);
                }
                let right_hv = right_hv.permute(1);
                let pair = vec![left_hv, right_hv];
                proof {
                    assert(datas(pair@) =~= seq![ast_data(**left), permuted(ast_data(**right), rotation_offset(1))]);
                }
                let b = bundle(pair.as_slice());
                op_hv.bind(&b)
            },
        }
    }
}

} // verus!
