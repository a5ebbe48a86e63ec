use strop::palette::{clamp_match, filter_models, filter_models_lowered, next_match, step_down, step_up};

#[test]
fn the_highlight_stops_at_either_end() {
    assert_eq!(step_down(0, 3), 1);
    assert_eq!(step_down(2, 3), 2);
    assert_eq!(step_down(9, 3), 2);
    assert_eq!(step_up(2), 1);
    assert_eq!(step_up(0), 0);
    assert_eq!(clamp_match(1, 4), 1);
    assert_eq!(clamp_match(7, 4), 3);
}

#[test]
fn find_next_wraps_around() {
    assert_eq!(next_match(0, 3), 1);
    assert_eq!(next_match(2, 3), 0);
    assert_eq!(next_match(5, 3), 0);
    assert_eq!(next_match(0, 1), 0);
}

#[test]
fn model_list_filters_case_blind() {
    let models = vec!["Llama3".to_owned(), "qwen2.5".to_owned(), "LLaVA".to_owned()];
    assert_eq!(filter_models(&models, "  LLA "), vec!["Llama3".to_owned(), "LLaVA".to_owned()]);
    assert_eq!(filter_models(&models, ""), models);
    assert!(filter_models(&models, "mistral").is_empty());
    let lowered = vec!["a".to_owned(), "b".to_owned(), "ab".to_owned()];
    assert_eq!(filter_models_lowered(&models, &lowered, "b"), vec!["qwen2.5".to_owned(), "LLaVA".to_owned()]);
}
