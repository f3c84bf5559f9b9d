//! The text side of the bridge to a local Ollama chat model: what is sent
//! for a context and a question, and how the model's reply is presented.

use crate::text::{is_blank, trim, trimmed};
use vstd::prelude::*;
use vstd::string::StringSliceAdditionalSpecFns;
use vstd::utf8::{decode_utf8, encode_utf8, is_char_boundary};

verus! {

broadcast use vstd::utf8::group_utf8_lib;

/// The most context, in bytes, that is sent whole.
pub const MAX_CONTEXT_LEN: usize = 2000;

/// The chat model asked.
pub const MODEL: &'static str = "qwen2.5:0.5b";

/// The system instruction sent ahead of every question.
pub const SYSTEM_PROMPT: &'static str = "You are a direct, expert physics and science tutor. Answer the student's question immediately using ONLY the provided context. Do NOT use conversational filler like 'Certainly' or 'Based on the context'. NEVER use LaTeX formatting (like $$ or \\frac). Use plain text and standard keyboard symbols for all math equations (for example, write F = (M/m) * F_net).";

/// A generator of answers from a local Ollama instance.
pub struct TinyAiGenerator;

/// The answer given when the context is blank.
pub open spec fn no_context_answer() -> Seq<char> {
    "Error: No context provided from memory."@
}

/// The answer given when the question is blank.
pub open spec fn no_query_answer() -> Seq<char> {
    "Error: No query provided."@
}

/// The context as it is sent: whole when it has at most 2000 bytes, else its
/// first 2000 bytes followed by a truncation marker.
pub open spec fn sent_context(context: &str) -> Seq<char> {
    if context.spec_bytes().len() > MAX_CONTEXT_LEN {
        decode_utf8(context.spec_bytes().subrange(0, MAX_CONTEXT_LEN as int))
            + "... [truncated]"@
    } else {
        context@
    }
}

/// The user message sent for a context and a question.
pub open spec fn user_message(context: &str, query: &str) -> Seq<char> {
    "Context from database: "@ + sent_context(context) + "\n\nStudent's Question: "@ + query@
}

/// The context can be cut at 2000 bytes: it is shorter, or byte 2000 starts a
/// character.
pub open spec fn cuttable(context: &str) -> bool {
    context.spec_bytes().len() > MAX_CONTEXT_LEN ==> is_char_boundary(
        context.spec_bytes(),
        MAX_CONTEXT_LEN as int,
    )
}

/// The reply shown for the text the model answered: the trimmed text with a
/// robot mark and a footer, or a warning when nothing but whitespace came.
pub open spec fn shown_reply(content: Seq<char>) -> Seq<char> {
    if trimmed(content).len() == 0 {
        "\u{26a0}\u{fe0f} AI returned empty response."@
    } else {
        "\u{1f916} "@ + trimmed(content) + "\n\n[Powered by Qwen 2.5 (0.5B) via Ollama]"@
    }
}

/// Law: a long context is cut to its beginning. A context of at most 2000
/// bytes is sent whole; a longer one is sent as its own leading characters,
/// exactly its first 2000 bytes, followed by the truncation marker.
pub proof fn lemma_sent_context_is_prefix(context: &str)
    requires
        cuttable(context),
    ensures
        context.spec_bytes().len() <= MAX_CONTEXT_LEN ==> sent_context(context) == context@,
        context.spec_bytes().len() > MAX_CONTEXT_LEN ==> {
            let s = sent_context(context);
            let h = s.len() - 15;
            &&& s.len() >= 15
            &&& s.subrange(h, s.len() as int) == "... [truncated]"@
            &&& h <= context@.len()
            &&& context@.subrange(0, h) == s.subrange(0, h)
            &&& encode_utf8(s.subrange(0, h)) == context.spec_bytes().subrange(0, MAX_CONTEXT_LEN as int)
        },
{
    reveal_strlit("... [truncated]");
    let b = context.spec_bytes();
    if b.len() > MAX_CONTEXT_LEN {
        let first = b.subrange(0, MAX_CONTEXT_LEN as int);
        let rest = b.subrange(MAX_CONTEXT_LEN as int, b.len() as int);
        vstd::utf8::valid_utf8_split(b, MAX_CONTEXT_LEN as int);
        vstd::utf8::decode_utf8_split(b, MAX_CONTEXT_LEN as int);
        let head = decode_utf8(first);
        assert(context@ == head + decode_utf8(rest));
        let s = sent_context(context);
        assert(s == head + "... [truncated]"@);
        assert(s.subrange(0, head.len() as int) =~= head);
        assert(s.subrange(head.len() as int, s.len() as int) =~= "... [truncated]"@);
        assert(context@.subrange(0, head.len() as int) =~= head);
    }
}

impl TinyAiGenerator {
    /// A generator; it holds no state.
    pub fn new() -> (g: TinyAiGenerator) {
        TinyAiGenerator
    }

    /// What to send for `context` and `query`: `Err` with the answer to give
    /// at once when the context is blank, or else when the question is blank;
    /// otherwise `Ok` with the user message.
    pub fn compose_user_message(&self, context: &str, query: &str) -> (r: Result<String, String>)
        requires
            trimmed(context@).len() != 0 && trimmed(query@).len() != 0 ==> cuttable(context),
        ensures
            trimmed(context@).len() == 0 ==> (r matches Err(a) && a@ == no_context_answer()),
            trimmed(context@).len() != 0 && trimmed(query@).len() == 0 ==> (r matches Err(a)
                && a@ == no_query_answer()),
            trimmed(context@).len() != 0 && trimmed(query@).len() != 0 ==> (r matches Ok(m)
                && m@ == user_message(context, query)),
    {
        if is_blank(context) {
            return Err(String::from_str("Error: No context provided from memory."));
        }
        if is_blank(query) {
            return Err(String::from_str("Error: No query provided."));
        }
        let mut sent: String;
        if context.as_bytes().len() > MAX_CONTEXT_LEN {
            let (head, _) = context.split_at(MAX_CONTEXT_LEN);
            proof {
                vstd::utf8::encode_utf8_decode_utf8(head@);
                assert(head.spec_bytes() == context.spec_bytes().subrange(0, MAX_CONTEXT_LEN as int));
                assert(head@ == decode_utf8(context.spec_bytes().subrange(0, MAX_CONTEXT_LEN as int)));
            }
            sent = String::from_str(head);
            sent.append("... [truncated]");
            assert(sent@ == sent_context(context));
        } else {
            sent = String::from_str(context);
            assert(sent@ == sent_context(context));
        }
        let mut m = String::from_str("Context from database: ");
        m.append(sent.as_str());
        m.append("\n\nStudent's Question: ");
        m.append(query);
        Ok(m)
    }

    /// The reply shown for the text content of the model's answer.
    pub fn reply_text(&self, content: &str) -> (out: String)
        ensures
            out@ == shown_reply(content@),
    {
        let cleaned = trim(content);
        if cleaned.as_str().is_empty() {
            String::from_str("\u{26a0}\u{fe0f} AI returned empty response.")
        } else {
            let mut out = String::from_str("\u{1f916} ");
            out.append(cleaned.as_str());
            out.append("\n\n[Powered by Qwen 2.5 (0.5B) via Ollama]");
            out
        }
    }
}

} // verus!
