//! The token estimator, the memoization table, and both trim modes.

use llm_api::api_model::ChatMessageJson;
use llm_api::context_trim::{
    apply_smart_summaries, build_summary_prompt, build_summary_request,
    calculate_message_importance, calculate_summary_length, calculate_total_tokens,
    plan_smart_summaries, split_into_sentences, str_eq_ic_exec, summarize_content, trim_context,
    trim_context_smart, truncate_by_words,
};
use llm_api::tokens::{
    estimate_tokens, estimate_tokens_internal, estimate_tokens_wide, is_cjk_char, TokenCache,
};

fn msg(role: &str, content: &str) -> ChatMessageJson {
    ChatMessageJson { role: role.to_string(), content: content.to_string() }
}

#[test]
fn estimate_empty_is_zero() {
    assert_eq!(estimate_tokens(""), 0);
}

#[test]
fn estimate_short_word() {
    // One word of up to three characters costs one token, plus the fixed
    // overhead of three.
    assert_eq!(estimate_tokens("hi"), 1 + 3);
    assert_eq!(estimate_tokens("abc"), 1 + 3);
}

#[test]
fn estimate_long_word_rounds_up() {
    // "hello" has five letters: three quarters of five, rounded up, is 4.
    assert_eq!(estimate_tokens("hello"), 4 + 3);
    // Eight letters: 6 tokens.
    assert_eq!(estimate_tokens("abcdefgh"), 6 + 3);
}

#[test]
fn estimate_punctuation_costs_one_each() {
    // "a b" = word(1) + space(1) + word(1) + overhead.
    assert_eq!(estimate_tokens("a b"), 3 + 3);
    assert_eq!(estimate_tokens("!?"), 2 + 3);
}

#[test]
fn estimate_cjk_costs_two_each() {
    assert_eq!(estimate_tokens("你好"), 4 + 3);
    assert!(is_cjk_char('你'));
    assert!(is_cjk_char('ア'));
    assert!(is_cjk_char('한'));
    assert!(!is_cjk_char('a'));
    assert!(!is_cjk_char('é'));
}

#[test]
fn estimate_other_unicode() {
    // 'é' encodes in two bytes: two tokens; '🌍' in four: three tokens.
    assert_eq!(estimate_tokens("é"), 2 + 3);
    assert_eq!(estimate_tokens("🌍"), 3 + 3);
}

#[test]
fn estimate_agrees_across_implementations() {
    for text in ["", "hello world", "你好 world!", "a", "Mixé 🌍 text, here."] {
        assert_eq!(estimate_tokens(text), estimate_tokens_internal(text));
        assert_eq!(estimate_tokens(text) as u128, estimate_tokens_wide(text));
    }
}

#[test]
fn token_cache_memoizes() {
    let mut cache = TokenCache::new();
    let fresh = cache.estimate_tokens("some message text");
    assert_eq!(fresh, estimate_tokens("some message text"));
    let again = cache.estimate_tokens("some message text");
    assert_eq!(again, fresh);
    let (entries, mem) = cache.get_token_cache_stats();
    assert_eq!(entries, 1);
    assert_eq!(mem, "some message text".len() + 8);
    cache.clear_token_cache();
    let (entries, mem) = cache.get_token_cache_stats();
    assert_eq!(entries, 0);
    assert_eq!(mem, 0);
}

#[test]
fn total_tokens_sums_messages() {
    let messages = vec![msg("user", "hi"), msg("assistant", "hello")];
    assert_eq!(calculate_total_tokens(&messages), 4 + 7);
}

#[test]
fn summarize_keeps_short_content() {
    assert_eq!(summarize_content("short", 10), "short");
}

#[test]
fn summarize_truncates_with_ellipsis() {
    let long = "One sentence here. Another sentence follows. And a third one.";
    let out = summarize_content(long, 25);
    let out_chars = out.chars().count();
    assert!(out_chars <= 26);
    assert!(out.ends_with('…'));
}

#[test]
fn summarize_prefers_sentence_boundary() {
    let text = "Good. Bad and very long tail without end";
    let out = summarize_content(text, 20);
    assert!(out.starts_with("Good."));
    assert!(out.chars().count() <= 21);
}

#[test]
fn sentences_split_on_marks() {
    let s = split_into_sentences("One. Two! Three? 四。");
    assert_eq!(s, vec!["One.", "Two!", "Three?", "四。"]);
    // A full stop inside an abbreviation-like position does not split.
    let s2 = split_into_sentences("e.g.x stays");
    assert_eq!(s2.len(), 1);
}

#[test]
fn words_truncate_within_budget() {
    let out = truncate_by_words("alpha beta gamma delta", 12);
    assert_eq!(out, "alpha beta");
    assert!(out.chars().count() <= 12);
}

#[test]
fn trim_returns_unchanged_within_budget() {
    let messages = vec![msg("user", "hi"), msg("assistant", "yo"), msg("user", "ok")];
    let out = trim_context(&messages, 10_000);
    assert_eq!(out.len(), 3);
    assert_eq!(out[2].content, "ok");
}

#[test]
fn trim_returns_unchanged_when_two_or_fewer() {
    let messages = vec![msg("user", "a very very long message indeed"), msg("assistant", "x")];
    let out = trim_context(&messages, 1);
    assert_eq!(out.len(), 2);
}

#[test]
fn trim_preserves_last_and_system() {
    // The E4 shape: a system message, three user turns, budget 20.
    let messages = vec![
        msg("system", "s"),
        msg("user", "u1"),
        msg("assistant", "a1"),
        msg("user", "u2"),
        msg("assistant", "a2"),
        msg("user", "u3"),
    ];
    assert!(calculate_total_tokens(&messages) > 20);
    let out = trim_context(&messages, 20);
    assert!(out.iter().any(|m| m.role == "system" && m.content == "s"));
    assert_eq!(out.last().unwrap().content, "u3");
    assert!(calculate_total_tokens(&out) <= 20 || out.len() == 2);
}

#[test]
fn trim_falls_back_to_last_two() {
    // No system message and no user/assistant pair: only the last
    // message is mandatory, so the result falls back to the last two.
    let messages = vec![
        msg("user", "one two three four five six seven eight nine ten"),
        msg("user", "eleven twelve thirteen fourteen fifteen sixteen"),
        msg("user", "seventeen eighteen nineteen twenty twentyone"),
    ];
    let out = trim_context(&messages, 1);
    assert_eq!(out.len(), 2);
    assert_eq!(out[0].content, messages[1].content);
    assert_eq!(out[1].content, messages[2].content);
}

#[test]
fn smart_trim_unchanged_within_budget() {
    let messages = vec![msg("user", "hi"), msg("assistant", "yo")];
    let out = trim_context_smart(&messages, 1_000, 3, 1, 1);
    assert_eq!(out.len(), 2);
    assert_eq!(out[0].content, "hi");
    assert_eq!(out[1].content, "yo");
}

#[test]
fn smart_trim_preserves_roles_last_and_system() {
    let long = "This is a rather long sentence that repeats itself. ".repeat(20);
    let messages = vec![
        msg("system", "keep me exactly"),
        msg("user", &long),
        msg("assistant", &long),
        msg("user", &long),
        msg("assistant", &long),
        msg("user", "final question"),
    ];
    let out = trim_context_smart(&messages, 60, 3, 1, 2);
    assert_eq!(out.len(), messages.len());
    for (a, b) in out.iter().zip(messages.iter()) {
        assert_eq!(a.role, b.role);
    }
    assert_eq!(out[0].content, "keep me exactly");
    assert_eq!(out[5].content, "final question");
    // The middle of the conversation was condensed.
    assert!(out[1].content.chars().count() < long.chars().count());
}

#[test]
fn smart_trim_monotone_in_aggressiveness() {
    let long = "Many words build a long and winding explanation of things. ".repeat(12);
    let messages = vec![
        msg("user", &long),
        msg("assistant", &long),
        msg("user", &long),
        msg("assistant", &long),
        msg("user", "tail"),
    ];
    let gentle = trim_context_smart(&messages, 40, 3, 1, 1);
    let harsh = trim_context_smart(&messages, 40, 3, 1, 6);
    let gentle_tokens = calculate_total_tokens(&gentle);
    let harsh_tokens = calculate_total_tokens(&harsh);
    assert!(gentle_tokens >= harsh_tokens);
}

#[test]
fn summary_length_antitone_in_aggressiveness() {
    let len_gentle = calculate_summary_length(1_000, 600, 1, "assistant");
    let len_harsh = calculate_summary_length(1_000, 600, 6, "assistant");
    assert!(len_gentle >= len_harsh);
    // Exact values of the documented formula: base ratio 560 per mille,
    // attenuation 900 and 400 per mille, assistant multiplier one.
    assert_eq!(len_gentle, 300);
    assert_eq!(len_harsh, 224);
}

#[test]
fn importance_favours_recent_system_messages() {
    let early_other = calculate_message_importance("tool", 10, 0, 10, false);
    let late_system = calculate_message_importance("system", 200, 9, 10, true);
    assert!(late_system > early_other);
    assert!(late_system <= 1000);
    // Exact value: recency 40, role 300, band 200, pair 100.
    assert_eq!(late_system, 40 + 300 + 200 + 100);
}

#[test]
fn role_comparison_ignores_ascii_case() {
    assert!(str_eq_ic_exec("SYSTEM", "system"));
    assert!(str_eq_ic_exec("User", "user"));
    assert!(!str_eq_ic_exec("users", "user"));
}

#[test]
fn summary_request_shape() {
    let req = build_summary_request("condense me", None, 128, 200);
    assert_eq!(req.model, "gpt-3.5-turbo");
    assert_eq!(req.messages.len(), 1);
    assert_eq!(req.messages[0].role, "user");
    assert!(req.messages[0].content.ends_with("condense me"));
    assert_eq!(req.max_tokens, 128);
    assert_eq!(req.temperature_milli, 200);
    assert!(!req.stream);
    let with_model = build_summary_request("x", Some(&"own-model".to_string()), 1, 2);
    assert_eq!(with_model.model, "own-model");
    let prompt = build_summary_prompt("text");
    assert!(prompt.ends_with("text"));
    assert!(prompt.len() > "text".len());
}

#[test]
fn summarize_marks_every_truncation() {
    for (text, max) in [
        ("One sentence here. Another one follows now.", 10usize),
        ("word another third", 7),
        ("nospacesatallinthistext", 5),
        ("你好世界你好世界", 3),
        ("x y", 0),
    ] {
        let out = summarize_content(text, max);
        assert!(out.chars().count() >= 1, "empty summary for {:?}", text);
        assert!(out.ends_with('…'), "unmarked truncation for {:?}: {:?}", text, out);
        assert!(out.chars().count() <= max + 1);
    }
}

#[test]
fn truncate_keeps_whole_words_only() {
    // Every space-free run of the output is a whole word of the input.
    let out = truncate_by_words("alpha beta  gamma", 11);
    assert_eq!(out, "alpha beta");
    for word in out.split(' ') {
        assert!("alpha beta  gamma".split_whitespace().any(|w| w == word));
    }
    // The first word alone fits, so something always survives.
    let tight = truncate_by_words("abc defghijklmnop", 3);
    assert_eq!(tight, "abc");
}

#[test]
fn token_cache_charge_counts_utf8_bytes() {
    let mut cache = TokenCache::new();
    cache.estimate_tokens("ab");
    cache.estimate_tokens("你好");
    let (entries, mem) = cache.get_token_cache_stats();
    assert_eq!(entries, 2);
    // Two bytes plus eight, then six bytes plus eight.
    assert_eq!(mem, (2 + 8) + (6 + 8));
}

#[test]
fn plan_protects_roles_pairs_and_last() {
    let messages = vec![
        msg("system", "rules"),
        msg("user", "q1"),
        msg("assistant", "a1"),
        msg("user", "q2"),
        msg("assistant", "a2"),
        msg("user", "q3"),
    ];
    let (protected, tasks) = plan_smart_summaries(&messages, 1, 1);
    // The newest pair is the final, still unanswered user turn, so the
    // mask protects the system message and the last message only.
    assert_eq!(protected, vec![true, false, false, false, false, true]);
    let indices: Vec<usize> = tasks.iter().map(|t| t.index).collect();
    assert_eq!(indices, vec![1, 2, 3, 4]);
    assert!(tasks.iter().all(|t| t.max_chars >= 15 && t.max_chars <= 500));
    assert_eq!(tasks[0].content, "q1");
    assert_eq!(tasks[1].content, "a1");

    // With two pairs protected, the answered turn (q2, a2) survives too.
    let (protected2, tasks2) = plan_smart_summaries(&messages, 2, 1);
    assert_eq!(protected2, vec![true, false, false, true, true, true]);
    let indices2: Vec<usize> = tasks2.iter().map(|t| t.index).collect();
    assert_eq!(indices2, vec![1, 2]);
}

#[test]
fn apply_uses_last_summary_for_an_index() {
    let messages = vec![msg("user", "original"), msg("user", "tail")];
    let protected = vec![false, true];
    let summaries = vec![
        (0usize, "first".to_string()),
        (0usize, "second".to_string()),
        (7usize, "ignored out of range".to_string()),
    ];
    let out = apply_smart_summaries(&messages, &protected, summaries, 10_000, 3);
    assert_eq!(out[0].content, "second");
    assert_eq!(out[1].content, "tail");
}
