use rarity::handler::{contains_mention, get_bot_string, route_message, should_leave_guild, Route};
use rarity::options::IOptions;
use rarity::proxy::{
    env_first, env_no_proxy, env_proxy_url, no_proxy_list, no_proxy_variables, proxy_variables,
};
use rarity::state::{
    prepare_history, update_global_state, ConversationHistory, GlobalConversationHistory,
    GlobalState, GLOBAL_HISTORY_LIMIT, HISTORY_LIMIT,
};

fn options() -> IOptions {
    IOptions {
        discord: "SECRET-REDACTED".to_string(),
        model: "m".to_string(),
        bot_name: "Rarity".to_string(),
        system_prompt: "sys".to_string(),
        footer_text: "footer".to_string(),
        allowed_guilds: vec![1, 2],
        restricted_channels: vec![99],
        owner: 7,
        bot: 42,
        twitter_channel_id: 5,
        title_mod_msg: "t".to_string(),
        desc_mod_msg: "d".to_string(),
    }
}

fn entries(h: &ConversationHistory) -> Vec<(String, String, String)> {
    h.entries().to_vec()
}

#[test]
fn the_overheard_history_keeps_the_last_messages() {
    let mut history = GlobalConversationHistory::new();
    for i in 0..40 {
        update_global_state(&mut history, format!("message {i}"), "Ann".to_string());
        assert!(history.len() <= GLOBAL_HISTORY_LIMIT + 1);
    }
    assert_eq!(history.len(), 26);
    let entries = history.entries();
    assert_eq!(entries[0].1, "message 14");
    assert_eq!(entries[25], ("Ann".to_string(), "message 39".to_string()));
}

#[test]
fn a_short_overheard_history_only_grows() {
    let mut history = GlobalConversationHistory::new();
    update_global_state(&mut history, "hi".to_string(), "Bob".to_string());
    assert_eq!(history.entries().to_vec(), vec![("Bob".to_string(), "hi".to_string())]);
}

#[test]
fn prepare_history_keeps_the_last_exchanges() {
    let mut stored = ConversationHistory::new();
    for i in 0..10 {
        stored.record("Ann".to_string(), format!("q{i}"), format!("a{i}"));
    }
    let prepared = prepare_history(Some(&stored), false, "Bob", "news");
    assert_eq!(prepared.len(), HISTORY_LIMIT);
    assert_eq!(entries(&prepared)[0].1, "q3");
    assert_eq!(stored.len(), 10);
    let with_news = prepare_history(Some(&stored), true, "Bob", "the news");
    assert_eq!(with_news.len(), HISTORY_LIMIT + 1);
    assert_eq!(
        entries(&with_news)[7],
        ("Bob".to_string(), "Рарити, расскажи новости".to_string(), "the news".to_string())
    );
}

#[test]
fn prepare_history_starts_empty_for_a_new_channel() {
    assert_eq!(prepare_history(None, false, "Bob", "").len(), 0);
    let mut fresh = prepare_history(None, true, "Bob", "n");
    assert_eq!(fresh.len(), 1);
    fresh.record("Bob".to_string(), "hello".to_string(), "hi, darling".to_string());
    assert_eq!(entries(&fresh)[1].2, "hi, darling");
}

#[test]
fn global_state_starts_without_news() {
    assert_eq!(GlobalState::new().last_news, "");
}

#[test]
fn get_bot_string_writes_the_mention() {
    assert_eq!(get_bot_string(42), "<@42>");
    assert_eq!(get_bot_string(0), "<@0>");
}

#[test]
fn contains_mention_removes_every_mention() {
    assert_eq!(contains_mention("<@42> hello", 42), Some(("hello".to_string(), true)));
    assert_eq!(contains_mention("hey <@42>, you <@42>!", 42), Some(("hey , you !".to_string(), false)));
    assert_eq!(contains_mention("hello <@43>", 42), None);
}

#[test]
fn messages_are_routed() {
    let o = options();
    assert_eq!(route_message(&o, true, 1, 10, "<@42> hi", false), Route::Ignore);
    assert_eq!(route_message(&o, false, 1, 99, "<@42> hi", false), Route::Ignore);
    assert_eq!(route_message(&o, false, 1, 10, "   ", true), Route::Ignore);
    assert_eq!(route_message(&o, false, 1, 10, "~help me", false), Route::Help);
    assert_eq!(route_message(&o, false, 1, 10, "<@42>  help ", false), Route::Help);
    assert_eq!(route_message(&o, false, 1, 10, "say help <@42>", false), Route::Reply("say help".to_string()));
    assert_eq!(route_message(&o, false, 1, 10, "<@42> how are you", false), Route::Reply("how are you".to_string()));
    assert_eq!(route_message(&o, false, 1, 10, "just chatting", true), Route::Speak);
    assert_eq!(route_message(&o, false, 7, 10, "just chatting", true), Route::Remember);
    assert_eq!(route_message(&o, false, 1, 10, "just chatting", false), Route::Remember);
}

#[test]
fn unallowed_guilds_are_left() {
    let o = options();
    assert!(!should_leave_guild(&o, 1));
    assert!(should_leave_guild(&o, 3));
    assert!(o.is_restricted(99));
    assert!(!o.is_restricted(98));
}

#[test]
fn proxy_settings_prefer_the_first_variable_set() {
    assert_eq!(proxy_variables()[0], "HTTPS_PROXY");
    assert_eq!(proxy_variables()[4], "ALL_PROXY");
    assert_eq!(proxy_variables().len(), 6);
    assert_eq!(no_proxy_variables(), vec!["NO_PROXY", "no_proxy"]);
    let values = vec![None, Some("http://a:1".to_string()), Some("http://b:2".to_string())];
    assert_eq!(env_proxy_url(&values), Some("http://a:1".to_string()));
    assert_eq!(env_first(&[None, None]), None);
    assert_eq!(env_no_proxy(&[None, Some("corp.local".to_string())]), "corp.local");
    assert_eq!(env_no_proxy(&[None, None]), "");
}

#[test]
fn a_scheme_proxy_is_preferred_over_the_catch_all() {
    let names = proxy_variables();
    let lookup = |name: &str| -> Option<String> {
        match name {
            "ALL_PROXY" => Some("http://a:1".to_string()),
            "HTTPS_PROXY" => Some("http://b:2".to_string()),
            _ => None,
        }
    };
    let values: Vec<Option<String>> = names.iter().map(|n| lookup(n)).collect();
    assert_eq!(env_proxy_url(&values), Some("http://b:2".to_string()));
}

#[test]
fn the_local_server_always_bypasses_the_proxy() {
    assert_eq!(no_proxy_list("example.internal"), "example.internal,localhost,127.0.0.1,::1");
    assert_eq!(no_proxy_list(""), ",localhost,127.0.0.1,::1");
}
