use strop::ai::{AiFailure, AiStatus, LlmError};
use strop::ai_run::{landed_status, running_label, AiRun, LullStep, PassStart, ResultStep};

fn title(s: &Option<AiStatus>) -> String {
    match s {
        Some(AiStatus::Note { title, .. }) | Some(AiStatus::Error { title, .. }) => title.clone(),
        Some(AiStatus::Running { label }) => label.clone(),
        Some(AiStatus::NeedsSetup { local_model }) => format!("setup {local_model:?}"),
        None => String::new(),
    }
}

#[test]
fn unconfigured_pass_waits_for_setup() {
    let mut run: AiRun<u32> = AiRun::new();
    assert!(run.drafting);
    match run.run_pass(true, false, "line", "m") {
        PassStart::NeedsSetup { generation } => assert_eq!(generation, 1),
        _ => panic!("expected setup"),
    }
    assert_eq!(run.pending_pass, Some(true));
    run.local_model_found(1, "llama3".into());
    assert_eq!(title(&run.status), "setup Some(\"llama3\")");
    run.local_model_found(0, "stale".into());
    assert_eq!(title(&run.status), "setup Some(\"llama3\")");
    assert!(run.take_pending());
    assert_eq!(run.pending_pass, None);
    assert!(!run.take_pending());
}

#[test]
fn a_running_pass_ignores_a_second_start() {
    let mut run: AiRun<u32> = AiRun::new();
    let g = match run.run_pass(false, true, "line", "qwen") {
        PassStart::Started { generation, landed } => {
            assert!(landed.is_none());
            generation
        }
        _ => panic!("expected start"),
    };
    assert!(!run.drafting);
    assert_eq!(title(&run.status), "line diagnosis \u{b7} qwen");
    assert!(matches!(run.run_pass(true, true, "line", "qwen"), PassStart::AlreadyRunning));
    assert_eq!(run.generation, g);
}

#[test]
fn stale_results_never_land() {
    let mut run: AiRun<u32> = AiRun::new();
    let g = match run.run_pass(false, true, "copy", "m") {
        PassStart::Started { generation, .. } => generation,
        _ => panic!(),
    };
    run.cancel();
    assert!(run.status.is_none());
    assert!(matches!(run.on_result(g, Ok(7), false, "u", "m"), ResultStep::Dropped));
    assert!(run.deferred.is_none());
}

#[test]
fn results_park_while_typing_and_land_at_the_lull() {
    let mut run: AiRun<u32> = AiRun::new();
    let g = match run.run_pass(false, true, "line", "m") {
        PassStart::Started { generation, .. } => generation,
        _ => panic!(),
    };
    assert!(matches!(run.on_result(g, Ok(9), true, "u", "m"), ResultStep::Parked));
    assert!(matches!(run.lull_tick(true), LullStep::Wait));
    assert!(matches!(run.lull_tick(false), LullStep::Land(Some(9))));
    assert!(matches!(run.lull_tick(false), LullStep::Stop));
    assert!(run.flush().is_none());
    let fade = run.landed(3, 2);
    assert_eq!(title(&run.status), "2 margin queries anchored");
    run.fade(fade);
    assert!(run.status.is_none());
}

#[test]
fn a_parked_pass_lands_before_the_next_run() {
    let mut run: AiRun<u32> = AiRun::new();
    let g = match run.run_pass(false, true, "line", "m") {
        PassStart::Started { generation, .. } => generation,
        _ => panic!(),
    };
    run.on_result(g, Ok(5), true, "u", "m");
    run.status = None;
    match run.run_pass(true, true, "line", "m") {
        PassStart::Started { landed, generation } => {
            assert_eq!(landed, Some(5));
            assert_eq!(generation, g + 1);
        }
        _ => panic!(),
    }
    assert_eq!(title(&run.status), "believing pass \u{b7} m");
}

#[test]
fn failures_show_their_card() {
    let mut run: AiRun<u32> = AiRun::new();
    let g = match run.run_pass(false, true, "line", "m") {
        PassStart::Started { generation, .. } => generation,
        _ => panic!(),
    };
    let step = run.on_result(g, Err(AiFailure::Llm(LlmError::Network("refused".into()))), false, "http://localhost:11434/v1", "m");
    assert!(matches!(step, ResultStep::Failed));
    assert_eq!(title(&run.status), "Couldn't reach localhost:11434");
    run.fade(g);
    assert_eq!(title(&run.status), "Couldn't reach localhost:11434");
}

#[test]
fn landed_cards_say_what_anchored() {
    let t = |c, k| match landed_status(c, k) {
        AiStatus::Note { title, detail } => (title, detail),
        _ => panic!(),
    };
    assert_eq!(t(0, 0).0, "Pass complete \u{2014} the editor found nothing to flag");
    assert_eq!(t(4, 0).0, "Pass complete \u{2014} no quote matched the current text");
    assert_eq!(t(4, 0).1, "");
    assert_eq!(t(1, 1), ("1 margin query anchored".to_owned(), String::new()));
    assert_eq!(t(5, 3), ("3 margin queries anchored".to_owned(), "2 dropped (stale quotes)".to_owned()));
    assert_eq!(running_label(true, "copy", "x"), "believing pass \u{b7} x");
}

#[test]
fn opening_the_config_says_what_next() {
    let mut run: AiRun<u32> = AiRun::new();
    let g = run.opened_config();
    assert_eq!(g, 1);
    assert_eq!(title(&run.status), "Opened config.toml in your editor");
    run.local_provider_failed("disk full".into());
    assert_eq!(title(&run.status), "Couldn't save the local provider");
    run.enter_reviewing();
    assert!(!run.drafting);
}
