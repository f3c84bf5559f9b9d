use hca::distil_gpt::TinyAiGenerator;

#[test]
fn blank_context_is_refused() {
    let g = TinyAiGenerator::new();
    assert_eq!(g.compose_user_message("  \n\t", "why?"), Err("Error: No context provided from memory.".to_string()));
}

#[test]
fn blank_query_is_refused() {
    let g = TinyAiGenerator::new();
    assert_eq!(g.compose_user_message("facts", " "), Err("Error: No query provided.".to_string()));
}

#[test]
fn message_carries_context_and_question() {
    let g = TinyAiGenerator::new();
    assert_eq!(
        g.compose_user_message("F = m a", "What is F?"),
        Ok("Context from database: F = m a\n\nStudent's Question: What is F?".to_string())
    );
}

#[test]
fn long_context_is_truncated() {
    let g = TinyAiGenerator::new();
    let ctx = "x".repeat(2500);
    let m = g.compose_user_message(&ctx, "q").unwrap();
    let expected = format!("Context from database: {}... [truncated]\n\nStudent's Question: q", "x".repeat(2000));
    assert_eq!(m, expected);
    let exact = "y".repeat(2000);
    assert_eq!(
        g.compose_user_message(&exact, "q").unwrap(),
        format!("Context from database: {}\n\nStudent's Question: q", exact)
    );
}

#[test]
fn reply_is_trimmed_and_signed() {
    let g = TinyAiGenerator::new();
    assert_eq!(g.reply_text("  Force is mass times acceleration. \n"), "🤖 Force is mass times acceleration.\n\n[Powered by Qwen 2.5 (0.5B) via Ollama]");
    assert_eq!(g.reply_text(" \n "), "⚠️ AI returned empty response.");
}
