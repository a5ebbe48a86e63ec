use strop::goal::{goal_label, goal_progress, parse_goal, word_count_label, GoalEntry};

#[test]
fn typed_goals_set_clear_or_are_ignored() {
    assert_eq!(parse_goal("500"), GoalEntry::SetTo(500));
    assert_eq!(parse_goal(" 1,500 "), GoalEntry::SetTo(1500));
    assert_eq!(parse_goal("2 000"), GoalEntry::SetTo(2000));
    assert_eq!(parse_goal("0"), GoalEntry::Clear);
    assert_eq!(parse_goal("+40"), GoalEntry::SetTo(40));
    assert_eq!(parse_goal("lots"), GoalEntry::Ignore);
    assert_eq!(parse_goal(""), GoalEntry::Ignore);
    assert_eq!(parse_goal("-5"), GoalEntry::Ignore);
    assert_eq!(parse_goal("99999999999999999999"), GoalEntry::Ignore);
}

#[test]
fn goal_progress_counts_from_when_it_was_set() {
    assert_eq!(goal_progress(1200, 500, 1000), (200, false));
    assert_eq!(goal_progress(1500, 500, 1000), (500, true));
    assert_eq!(goal_progress(900, 500, 1000), (-100, false));
    assert_eq!(goal_label(1200, 500, 1000), "+200/500");
    assert_eq!(goal_label(1000, 500, 1000), "+0/500");
    assert_eq!(goal_label(900, 500, 1000), "-100/500");
    assert_eq!(word_count_label(12345), "12,345 words");
}
