use moeve::score::{parse_score, Score};
use moeve::sentence::Sentence;

fn item(ease: u32, reps: usize, interval: Option<u64>) -> Sentence {
    Sentence {
        id: Some(1),
        text: String::from("ein Satz"),
        created_at: 100,
        last_answered_at: if reps == 0 { None } else { Some(150) },
        due_at: 200,
        ease,
        interval_in_mins: interval,
        reps,
        is_suspended: false,
    }
}

#[test]
fn first_answer_gives_one_day_whatever_the_score() {
    for score in [Score::Hard, Score::Good, Score::Easy] {
        let mut s = item(250, 0, None);
        s.schedule(score, 1000);
        assert_eq!(s.interval_in_mins, Some(1440));
        assert_eq!(s.reps, 1);
        assert_eq!(s.due_at, 1000 + 1440);
        assert_eq!(s.last_answered_at, Some(1000));
    }
}

#[test]
fn second_answer_gives_six_days_whatever_the_score() {
    for score in [Score::Hard, Score::Good, Score::Easy] {
        let mut s = item(250, 1, Some(1440));
        s.schedule(score, 2000);
        assert_eq!(s.interval_in_mins, Some(8640));
        assert_eq!(s.reps, 2);
        assert_eq!(s.due_at, 2000 + 8640);
    }
}

#[test]
fn later_answers_multiply_by_the_updated_ease() {
    // hard: ease 3.00 drops to 2.80 before the multiplication
    let mut s = item(300, 4, Some(1000));
    s.schedule(Score::Hard, 5000);
    assert_eq!(s.ease, 280);
    assert_eq!(s.interval_in_mins, Some(1000 * 280 / 100));

    // easy: ease 3.00 rises to 3.20 before the multiplication
    let mut s = item(300, 4, Some(1000));
    s.schedule(Score::Easy, 5000);
    assert_eq!(s.ease, 320);
    assert_eq!(s.interval_in_mins, Some(3200));
}

#[test]
fn interval_truncates_to_whole_minutes() {
    // 333 * 2.5 = 832.5, truncated to 832
    let mut s = item(250, 2, Some(333));
    s.schedule(Score::Good, 0);
    assert_eq!(s.ease, 250);
    assert_eq!(s.interval_in_mins, Some(832));
}

#[test]
fn good_answer_keeps_ease_and_multiplies_interval() {
    // ease 2.5, reps 2, interval 1000 answered Good
    let mut s = item(250, 2, Some(1000));
    s.schedule(Score::Good, 7000);
    assert_eq!(s.ease, 250);
    assert_eq!(s.interval_in_mins, Some(2500));
    assert_eq!(s.reps, 3);
}

#[test]
fn hard_answer_clamps_ease_at_the_floor() {
    // ease 1.35 answered Hard clamps to 1.30; 500 * 1.3 = 650
    let mut s = item(135, 5, Some(500));
    s.schedule(Score::Hard, 7000);
    assert_eq!(s.ease, 130);
    assert_eq!(s.interval_in_mins, Some(650));
    assert_eq!(s.reps, 6);
}

#[test]
fn ease_never_leaves_its_bounds() {
    let mut s = item(250, 0, None);
    let mut now: i64 = 10;
    for _ in 0..20 {
        s.schedule(Score::Easy, now);
        assert!(s.ease >= 130 && s.ease <= 350);
        now += 1;
    }
    assert_eq!(s.ease, 350);
    for _ in 0..20 {
        s.schedule(Score::Hard, now);
        assert!(s.ease >= 130 && s.ease <= 350);
        now += 1;
    }
    assert_eq!(s.ease, 130);
}

#[test]
fn suspend_changes_nothing_but_the_flag() {
    let mut s = item(270, 3, Some(900));
    s.suspend();
    assert!(s.is_suspended);
    assert_eq!(s.id, Some(1));
    assert_eq!(s.text, String::from("ein Satz"));
    assert_eq!(s.created_at, 100);
    assert_eq!(s.last_answered_at, Some(150));
    assert_eq!(s.due_at, 200);
    assert_eq!(s.ease, 270);
    assert_eq!(s.interval_in_mins, Some(900));
    assert_eq!(s.reps, 3);
}

#[test]
fn scores_parse_from_the_three_digits() {
    assert_eq!(parse_score("1"), Some(Score::Hard));
    assert_eq!(parse_score("2"), Some(Score::Good));
    assert_eq!(parse_score("3"), Some(Score::Easy));
    assert_eq!(parse_score("4"), None);
    assert_eq!(parse_score(""), None);
    assert_eq!(parse_score("12"), None);
}
