use rarity::discord::{
    compact_model_name, count_utf16, create_embed_timestamp, embed_footer, prepare_embed,
    remove_quotes, safe_truncate, sanitize_discord_text, sanitize_embed_texts,
    truncate_to_byte_budget, truncate_utf16, validate_embed_content, DISCORD_EMBED_DESCRIPTION_LIMIT,
    DISCORD_EMBED_TITLE_LIMIT,
};

#[test]
fn compact_model_name_strips_latest_tag() {
    assert_eq!(compact_model_name("glm-4.7-flash:latest"), "glm-4.7-flash");
    assert_eq!(compact_model_name("hermes3:latest"), "hermes3");
}

#[test]
fn compact_model_name_keeps_other_tags() {
    assert_eq!(compact_model_name("gemma4:e2b"), "gemma4:e2b");
}

#[test]
fn compact_model_name_leaves_untagged_names_alone() {
    assert_eq!(compact_model_name("mistral-small3.2"), "mistral-small3.2");
}

#[test]
fn truncate_to_byte_budget_respects_multibyte_boundaries() {
    let text = "Привет мир";
    let truncated = truncate_to_byte_budget(text, 7);

    assert!(truncated.len() <= 7);
    assert!(text.starts_with(&truncated));
}

#[test]
fn truncate_to_byte_budget_zero_is_empty() {
    assert_eq!(truncate_to_byte_budget("hello", 0), String::new());
}

#[test]
fn truncate_to_byte_budget_never_exceeds_budget() {
    let text = "п".repeat(50);
    for budget in 0..=text.len() {
        assert!(truncate_to_byte_budget(&text, budget).len() <= budget);
    }
}

#[test]
fn truncate_to_byte_budget_keeps_whole_string_when_it_fits() {
    let text = "Привет";
    assert_eq!(truncate_to_byte_budget(text, text.len()), text);
}

#[test]
fn truncate_to_byte_budget_stops_before_a_split_character() {
    assert_eq!(truncate_to_byte_budget("Привет мир", 7), "При");
    assert_eq!(truncate_to_byte_budget("ab🎉c", 5), "ab");
    assert_eq!(truncate_to_byte_budget("ab🎉c", 6), "ab🎉");
}

#[test]
fn count_utf16_counts_surrogate_pairs_twice() {
    assert_eq!(count_utf16("abc"), 3);
    assert_eq!(count_utf16("Привет"), 6);
    assert_eq!(count_utf16("🎉"), 2);
    assert_eq!(count_utf16(""), 0);
}

#[test]
fn truncate_utf16_keeps_whole_characters() {
    assert_eq!(truncate_utf16("a🎉b", 2), "a");
    assert_eq!(truncate_utf16("a🎉b", 3), "a🎉");
    assert_eq!(truncate_utf16("hello", 10), "hello");
    assert_eq!(truncate_utf16("hello", 0), "");
}

#[test]
fn sanitize_discord_text_drops_invisible_characters() {
    assert_eq!(sanitize_discord_text("  a\u{200B}b\u{0007}c\u{FEFF}  "), "abc");
    assert_eq!(sanitize_discord_text("line\nnext\tcol"), "line\nnext\tcol");
    assert_eq!(sanitize_discord_text("\u{202A}x\u{202E}"), "x");
    assert_eq!(sanitize_discord_text("   "), "");
}

#[test]
fn safe_truncate_returns_normalized_text_when_it_fits() {
    assert_eq!(safe_truncate("  hello \n  world  ", 100), "hello world");
    assert_eq!(safe_truncate("anything", 0), "");
}

#[test]
fn safe_truncate_cuts_and_marks_the_cut() {
    assert_eq!(safe_truncate("hello world", 8), "hello...");
    assert_eq!(safe_truncate("abcdefghij", 6), "abc...");
    assert_eq!(safe_truncate("abcdefghij", 3), "...");
}

#[test]
fn safe_truncate_fits_the_budget() {
    let text = "слово ".repeat(300);
    for max in [3usize, 10, 57, 100, 256] {
        let cut = safe_truncate(&text, max);
        assert!(count_utf16(&cut) <= max);
        assert!(cut.ends_with("..."));
    }
}

#[test]
fn validate_embed_content_accepts_a_normal_embed() {
    assert_eq!(validate_embed_content("Title", "Body", "Footer"), Ok(()));
}

#[test]
fn validate_embed_content_rejects_blank_embeds() {
    assert_eq!(
        validate_embed_content("  ", "\n", "Footer"),
        Err("Both title and description are empty or whitespace-only".to_string())
    );
}

#[test]
fn validate_embed_content_reports_each_limit() {
    let long_title = "t".repeat(257);
    assert_eq!(
        validate_embed_content(&long_title, "d", ""),
        Err("Title too long: 257 UTF-16 code points (limit: 256)".to_string())
    );
    let long_description = "d".repeat(4097);
    assert_eq!(
        validate_embed_content("t", &long_description, ""),
        Err("Description too long: 4097 UTF-16 code points (limit: 4096)".to_string())
    );
    let long_footer = "f".repeat(2049);
    assert_eq!(
        validate_embed_content("t", "d", &long_footer),
        Err("Footer too long: 2049 UTF-16 code points (limit: 2048)".to_string())
    );
    let title = "t".repeat(256);
    let description = "d".repeat(4096);
    let footer = "f".repeat(2000);
    assert_eq!(
        validate_embed_content(&title, &description, &footer),
        Err("Total embed content too long: 6352 > 6000 UTF-16 code points".to_string())
    );
}

#[test]
fn remove_quotes_strips_quotes_and_keeps_bold() {
    assert_eq!(remove_quotes("\"Hello there\""), "Hello there");
    assert_eq!(remove_quotes("  'single'  "), "single");
    assert_eq!(remove_quotes("**\"Bold title\"**"), "**Bold title**");
    assert_eq!(remove_quotes("**\"half bold\""), "half bold");
    assert_eq!(remove_quotes("no quotes  at\tall"), "no quotes at all");
}

#[test]
fn remove_quotes_matches_the_shortest_quoted_part() {
    assert_eq!(remove_quotes("\"a\" and \"b\""), "a\" and \"b");
    assert_eq!(remove_quotes("'x' tail"), "'x' tail");
}

#[test]
fn embed_footer_names_the_version_and_model() {
    assert_eq!(embed_footer("Rarity", "1.2.3", None), "Rarity 💎 v1.2.3");
    assert_eq!(
        embed_footer("Rarity", "1.2.3", Some("hermes3:latest")),
        "Rarity 💎 v1.2.3 · 🤖 hermes3"
    );
}

#[test]
fn sanitize_embed_texts_truncates_what_is_too_long() {
    let title = "word ".repeat(100);
    let texts = sanitize_embed_texts(&title, "body");
    assert!(count_utf16(&texts.title) <= DISCORD_EMBED_TITLE_LIMIT);
    assert!(texts.title.ends_with("..."));
    assert_eq!(texts.description, "body");
    let description = "x".repeat(5000);
    let texts = sanitize_embed_texts("t", &description);
    assert!(count_utf16(&texts.description) <= DISCORD_EMBED_DESCRIPTION_LIMIT);
}

#[test]
fn prepare_embed_refuses_an_empty_embed() {
    assert_eq!(
        prepare_embed("\u{200B}", "  ", "footer").err(),
        Some("Cannot send embed with no content".to_string())
    );
}

#[test]
fn prepare_embed_fits_the_byte_total() {
    let description = "я".repeat(4000);
    let embed = prepare_embed("Новости", &description, "footer").ok().unwrap();
    assert_eq!(embed.title, "Новости");
    assert!(embed.title.len() + embed.description.len() + "footer".len() <= 6000);
    assert!(description.starts_with(&embed.description));
}

#[test]
fn create_embed_timestamp_prefers_the_given_time() {
    assert_eq!(create_embed_timestamp(Some(1_700_000_000), 1_800_000_000), 1_700_000_000);
    assert_eq!(create_embed_timestamp(None, 1_800_000_000), 1_800_000_000);
    assert_eq!(create_embed_timestamp(Some(i64::MAX), 1_800_000_000), 1_800_000_000);
}

#[test]
fn versioned_footer_names_the_version() {
    assert_eq!(rarity::discord::versioned_footer("Rarity", "0.7.0"), "Rarity | v0.7.0");
}

#[test]
fn prepared_embeds_say_which_parts_to_set() {
    let embed = prepare_embed("  ", "Body", "footer").ok().unwrap();
    assert!(!embed.has_title());
    assert!(embed.has_description());
}

#[test]
fn sanitizing_twice_changes_nothing() {
    for text in ["  a\u{200B}b\u{0007}c\u{FEFF}  ", "\u{200B} x \u{200B}", "\t\n", "plain"] {
        let once = sanitize_discord_text(text);
        assert_eq!(sanitize_discord_text(&once), once);
        let mut rest = text.chars();
        assert!(once.chars().all(|c| rest.any(|d| d == c)));
    }
    assert_eq!(sanitize_discord_text("\u{200B} x \u{200B}"), "x");
}
