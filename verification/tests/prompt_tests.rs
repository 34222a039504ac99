use rarity::prompt::{
    fallback_estimate, fit_prompt,
    after_attempt, api_status_message, assemble_prompt, assistant_chat_prompt,
    assistant_history_prompt, build_chat_history, estimate_tokens, history_messages,
    max_attempts_message, may_attempt, num_predict, pick_model_at, pick_random_model,
    pick_random_model_from, remove_xml_tags, restart_outcome, restart_refused_message,
    service_is_active, truncate_at_word_boundary, truncate_prompt_smartly, AttemptOutcome,
    RetryDecision, DEFAULT_MODEL, MAX_CONTEXT_TOKENS, MIN_RESPONSE_TOKENS, RESPONSE_TOKENS,
};

fn to_owned_strings(names: &[&str]) -> Vec<String> {
    names.iter().map(|s| s.to_string()).collect()
}

#[test]
fn no_models_returns_none() {
    assert_eq!(pick_random_model_from(&[], &[]), None);
}

#[test]
fn excludes_the_only_other_model_when_possible() {
    let models = to_owned_strings(&["a", "b"]);
    let exclude = to_owned_strings(&["a"]);

    for _ in 0..20 {
        assert_eq!(pick_random_model_from(&models, &exclude), Some("b"));
    }
}

#[test]
fn falls_back_to_the_full_list_once_everything_is_excluded() {
    let models = to_owned_strings(&["a", "b"]);
    let exclude = to_owned_strings(&["a", "b"]);

    for _ in 0..20 {
        assert!(pick_random_model_from(&models, &exclude).is_some());
    }
}

#[test]
fn truncate_prompt_smartly_leaves_short_prompts_untouched() {
    let result = truncate_prompt_smartly("SYSTEM", Some("SECONDARY"), "short user prompt");
    assert_eq!(result, "SYSTEM\n\nSECONDARY\n\nshort user prompt");
}

#[test]
fn truncate_prompt_smartly_does_not_duplicate_system_or_secondary_prompt() {
    let user_prompt = "word ".repeat(5000);

    let result = truncate_prompt_smartly("SYSTEM_MARKER", Some("SECONDARY_MARKER"), &user_prompt);

    assert_eq!(result.matches("SYSTEM_MARKER").count(), 1);
    assert_eq!(result.matches("SECONDARY_MARKER").count(), 1);
}

#[test]
fn truncate_prompt_smartly_stays_within_the_response_token_budget() {
    let user_prompt = "word ".repeat(5000);
    let available_tokens = MAX_CONTEXT_TOKENS.saturating_sub(RESPONSE_TOKENS);

    let result = truncate_prompt_smartly("SYSTEM_MARKER", Some("SECONDARY_MARKER"), &user_prompt);

    assert!(
        estimate_tokens(&result) <= available_tokens,
        "truncated prompt is {} estimated tokens, over the {} token budget",
        estimate_tokens(&result),
        available_tokens
    );
}

#[test]
fn truncate_prompt_smartly_without_secondary_prompt() {
    assert_eq!(truncate_prompt_smartly("S", None, "user"), "S\n\nuser");
}

#[test]
fn assemble_prompt_separates_parts_with_blank_lines() {
    assert_eq!(assemble_prompt("a", Some("b"), "c"), "a\n\nb\n\nc");
    assert_eq!(assemble_prompt("a", None, "c"), "a\n\nc");
}

#[test]
fn estimate_tokens_counts_something_for_text() {
    assert_eq!(estimate_tokens(""), 0);
    assert!(estimate_tokens("hello world") >= 1);
}

#[test]
fn truncate_at_word_boundary_keeps_short_text() {
    assert_eq!(truncate_at_word_boundary("short", 10), "short");
    assert_eq!(truncate_at_word_boundary("exactly", 7), "exactly");
}

#[test]
fn truncate_at_word_boundary_breaks_at_a_space() {
    assert_eq!(truncate_at_word_boundary("hello big world", 12), "hello...");
    assert_eq!(truncate_at_word_boundary("one.two three", 8), "one...");
    assert_eq!(truncate_at_word_boundary("abcdefghij", 6), "abc...");
    assert_eq!(truncate_at_word_boundary("abcdefghij", 2), "...");
}

#[test]
fn num_predict_reserves_a_margin_and_a_floor() {
    assert_eq!(num_predict(0), 3996);
    assert_eq!(num_predict(1000), 2996);
    assert_eq!(num_predict(3700), 296);
    assert_eq!(num_predict(3800), MIN_RESPONSE_TOKENS);
    assert_eq!(num_predict(100_000), MIN_RESPONSE_TOKENS);
}

#[test]
fn remove_xml_tags_strips_markup() {
    assert_eq!(remove_xml_tags("<think>hmm</think>Answer"), "hmmAnswer");
    assert_eq!(remove_xml_tags("a <b> c"), "a  c");
    assert_eq!(remove_xml_tags("1 < 2 and <> stays"), "1  stays");
    assert_eq!(remove_xml_tags("a<>b"), "a<>b");
    assert_eq!(remove_xml_tags("unclosed <tag"), "unclosed <tag");
}

#[test]
fn pick_model_at_uses_the_pool() {
    let models = to_owned_strings(&["a", "b", "c"]);
    let exclude = to_owned_strings(&["b"]);
    assert_eq!(pick_model_at(&models, &exclude, 0), Some("a"));
    assert_eq!(pick_model_at(&models, &exclude, 1), Some("c"));
    assert_eq!(pick_model_at(&models, &exclude, 2), Some("a"));
    assert_eq!(pick_model_at(&[], &exclude, 2), None);
}

#[test]
fn pick_random_model_falls_back_to_the_default() {
    assert_eq!(pick_random_model(&[], &[]), DEFAULT_MODEL);
    let models = to_owned_strings(&["only"]);
    assert_eq!(pick_random_model(&models, &[]), "only");
}

#[test]
fn build_chat_history_writes_one_line_per_message() {
    let messages = vec![
        ("Ann".to_string(), "hi".to_string()),
        ("Rarity".to_string(), "hello, darling".to_string()),
    ];
    assert_eq!(
        build_chat_history(&messages, "Bob", "and me?", "Rarity"),
        "Ann: hi\nRarity: hello, darling\nBob: and me?\nRarity: "
    );
}

#[test]
fn history_messages_unrolls_exchanges() {
    let history = vec![("Ann".to_string(), "q".to_string(), "a".to_string())];
    let messages = history_messages(&history, "Rarity");
    assert_eq!(
        messages,
        vec![("Ann".to_string(), "q".to_string()), ("Rarity".to_string(), "a".to_string())]
    );
}

#[test]
fn assistant_prompts_use_the_plain_form() {
    let history = vec![("q".to_string(), "a".to_string())];
    assert_eq!(
        assistant_history_prompt(&history, "Bob", "next"),
        "Bob: q\nAssistant: a\nBob: next\nAssistant: "
    );
    let chat = vec![("Ann".to_string(), "x".to_string()), ("Cid".to_string(), "y".to_string())];
    assert_eq!(assistant_chat_prompt(&chat, "Bob", "z"), "Ann: xCid: yBob: z\nAssistant: ");
}

#[test]
fn retries_restart_after_a_timeout_until_attempts_run_out() {
    assert!(may_attempt(0));
    assert!(may_attempt(2));
    assert!(!may_attempt(3));
    assert_eq!(after_attempt(0, AttemptOutcome::Finished), RetryDecision::Report);
    assert_eq!(after_attempt(0, AttemptOutcome::TimedOut), RetryDecision::RestartAndRetry(1));
    assert_eq!(after_attempt(2, AttemptOutcome::TimedOut), RetryDecision::RestartAndRetry(3));
    assert_eq!(max_attempts_message(), "Max restart attempts (3) reached for Ollama");
}

#[test]
fn restart_outcome_reads_the_service_status() {
    assert!(service_is_active("active\n"));
    assert!(!service_is_active("inactive\n"));
    assert_eq!(restart_outcome("  active \n"), Ok(()));
    assert_eq!(
        restart_outcome("failed\n"),
        Err("Ollama service is not active after restart. Status: failed\n".to_string())
    );
    assert_eq!(restart_refused_message("denied"), "Failed to restart Ollama service: denied");
}

#[test]
fn api_status_message_names_the_status() {
    assert_eq!(api_status_message(500), "Ollama API returned error status: 500 Internal Server Error");
    assert_eq!(api_status_message(599), "Ollama API returned error status: 599 <unknown status code>");
}

#[test]
fn fit_prompt_cuts_the_user_part_by_the_estimates() {
    assert_eq!(fit_prompt("S", Some("X"), "user", 1, 1, 1), "S\n\nX\n\nuser");
    assert_eq!(fit_prompt("S", None, "hello big world", 3095, 0, 10), "S\n\nh...");
    assert_eq!(fit_prompt("S", Some("X"), "abc", 5000, 0, 1), "S\n\nX\n\n...");
    assert_eq!(fit_prompt("S", None, "one two three four", 3000, 0, 200), "S\n\none two three four");
}

#[test]
fn fallback_estimate_rounds_a_quarter_up() {
    assert_eq!(fallback_estimate(0), 1);
    assert_eq!(fallback_estimate(2), 2);
    assert_eq!(fallback_estimate(5), 2);
    assert_eq!(fallback_estimate(6), 3);
    assert_eq!(fallback_estimate(100), 26);
}
