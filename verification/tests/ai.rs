use strop::ai::{
    env_key_set, host_of, omni_mode, pick_local_model, pick_model_lowered, provider_for,
    providers, resolved_key, AiFailure, AiStatus, LlmError, OmniMode,
};

#[test]
fn provider_resolves_from_hand_typed_urls() {
    assert_eq!(provider_for("http://localhost:11434/v1").unwrap().label, "Local (Ollama)");
    assert_eq!(provider_for("https://openrouter.ai/api/v1/").unwrap().label, "OpenRouter");
    assert_eq!(provider_for("https://api.poe.com/v1").unwrap().label, "Poe");
    assert_eq!(provider_for("https://api.openai.com/v1").unwrap().label, "OpenAI");
    assert!(provider_for("http://localhost:11434/v1").unwrap().key_url.is_none());
    assert!(provider_for("https://openrouter.ai/api/v1").unwrap().key_url.is_some());
    assert!(provider_for("https://my.proxy.internal/v1").is_none());
    assert!(provider_for("").is_none());
    assert!(providers().iter().any(|p| p.label == "Custom" && p.host_match.is_empty()));
}

#[test]
fn provider_urls_are_trimmed_first() {
    assert_eq!(provider_for("  https://api.poe.com/v1\n").unwrap().label, "Poe");
    assert!(provider_for(" \t ").is_none());
}

#[test]
fn local_model_pick_skips_embedders() {
    assert_eq!(
        pick_local_model(vec!["nomic-embed-text".into(), "llama3.3:latest".into()]),
        Some("llama3.3:latest".into())
    );
    assert_eq!(pick_local_model(vec!["bge-large".into()]), Some("bge-large".into()));
    assert_eq!(pick_local_model(vec![]), None);
}

#[test]
fn local_model_pick_folds_case() {
    assert_eq!(
        pick_local_model(vec!["BGE-M3".into(), "Qwen-ReRanker".into(), "Mistral".into()]),
        Some("Mistral".into())
    );
}

#[test]
fn pick_reads_the_lowered_names() {
    let models = vec!["A".to_owned(), "B".to_owned()];
    let lowered = vec!["x-embed".to_owned(), "chat".to_owned()];
    assert_eq!(pick_model_lowered(&models, &lowered), Some("B".to_owned()));
    let lowered = vec!["rerank".to_owned(), "bge".to_owned()];
    assert_eq!(pick_model_lowered(&models, &lowered), Some("A".to_owned()));
}

#[test]
fn omnibox_prefixes_choose_the_mode() {
    assert_eq!(omni_mode(">  bold"), (OmniMode::Command, "bold"));
    assert_eq!(omni_mode("@Intro"), (OmniMode::Heading, "Intro"));
    assert_eq!(omni_mode("  find me"), (OmniMode::Find, "  find me"));
    assert_eq!(omni_mode(""), (OmniMode::Find, ""));
    assert_eq!(omni_mode(">"), (OmniMode::Command, ""));
}

#[test]
fn hosts_lose_their_scheme_and_path() {
    assert_eq!(host_of("https://openrouter.ai/api/v1"), "openrouter.ai");
    assert_eq!(host_of("http://localhost:11434/v1"), "localhost:11434");
    assert_eq!(host_of("api.poe.com"), "api.poe.com");
    assert_eq!(host_of("https://https://x.y/z"), "x.y");
    assert_eq!(host_of(""), "");
}

fn error_of(s: AiStatus) -> (String, String) {
    match s {
        AiStatus::Error { title, detail } => (title, detail),
        other => panic!("not an error: {other:?}"),
    }
}

#[test]
fn failures_name_what_failed() {
    let url = "https://openrouter.ai/api/v1";
    let (t, d) = error_of(AiFailure::Llm(LlmError::Auth("401".into())).into_status(url, "m"));
    assert_eq!(t, "openrouter.ai rejected the API key");
    assert_eq!(d, "401");
    let (t, _) = error_of(AiFailure::Llm(LlmError::RateLimited("429".into())).into_status(url, "m"));
    assert_eq!(t, "Rate limited by openrouter.ai \u{2014} try again in a moment");
    let (t, _) = error_of(AiFailure::Llm(LlmError::Provider("500".into())).into_status(url, "m"));
    assert_eq!(t, "openrouter.ai returned an error");
    let (t, _) = error_of(AiFailure::Llm(LlmError::Network("dns".into())).into_status(url, "m"));
    assert_eq!(t, "Couldn't reach openrouter.ai");
    let (t, _) = error_of(AiFailure::Llm(LlmError::Shape("?".into())).into_status(url, "tiny"));
    assert_eq!(t, "Unusable reply from tiny");
    let (t, d) = error_of(AiFailure::Parse("no json".into()).into_status(url, "tiny"));
    assert_eq!(t, "tiny replied, but not in diagnosis format \u{2014} usually a too-small model");
    assert_eq!(d, "no json");
}

#[test]
fn environment_key_wins_only_when_set() {
    assert_eq!(resolved_key(Some("env".into()), "form"), "env");
    assert_eq!(resolved_key(Some(String::new()), "form"), "form");
    assert_eq!(resolved_key(None, "form"), "form");
    assert!(env_key_set(&Some("k".into())));
    assert!(!env_key_set(&Some(String::new())));
    assert!(!env_key_set(&None));
}
