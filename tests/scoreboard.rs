use pacman_core::scoreboard::{format_time_penalty, int_to_text, Scoreboard, UserScore};

fn check(time: i64, expected: &str) {
    assert_eq!(&format_time_penalty(time), expected);
}

#[test]
fn format_tests() {
    check(0, "0:00");
    check(42, "0:42");
    check(60, "1:00");
    check(72, "1:12");
    check(153, "2:33");
    check(1801, "30:01");
    check(3600, "60:00");
    check(5438, "90:38");
}

#[test]
fn format_negative_and_extremes() {
    check(-65, "-1:05");
    check(-1, "-0:01");
    check(i64::MAX, "153722867280912930:07");
    check(i64::MIN, "-153722867280912930:08");
}

#[test]
fn integer_text() {
    assert_eq!(int_to_text(0), "0");
    assert_eq!(int_to_text(7), "7");
    assert_eq!(int_to_text(1200), "1200");
    assert_eq!(int_to_text(-35), "-35");
    assert_eq!(int_to_text(u64::MAX as i128), "18446744073709551615");
}

#[test]
fn level_record_keeps_smallest_penalties() {
    let mut board = Scoreboard::new();
    board.add_user_evaluation("ana", 50, 4, 9);
    board.add_user_evaluation("ana", 70, 2, 11);
    board.add_user_evaluation("ana", 60, 3, 5);
    let records = board.records();
    assert_eq!(records.len(), 1);
    assert_eq!(records[0].0, "ana");
    assert_eq!(
        records[0].1,
        UserScore { solved_levels: 1, time_penalty: 50, size_penalty: 2, speed_penalty: 5 }
    );
}

#[test]
fn level_scores_add_up_across_levels() {
    let mut global = Scoreboard::new();
    let mut first = Scoreboard::new();
    first.add_user_evaluation("ana", 30, 4, 2);
    first.add_user_evaluation("bob", 40, 1, 1);
    global.add_level_scores(&first);
    let mut second = Scoreboard::new();
    second.add_user_evaluation("bob", 5, 2, 3);
    second.add_user_evaluation("cid", 7, 3, 4);
    global.add_level_scores(&second);
    let records = global.records();
    assert_eq!(records.len(), 3);
    assert_eq!(records[0].0, "ana");
    assert_eq!(
        records[0].1,
        UserScore { solved_levels: 1, time_penalty: 30, size_penalty: 4, speed_penalty: 2 }
    );
    assert_eq!(records[1].0, "bob");
    assert_eq!(
        records[1].1,
        UserScore { solved_levels: 2, time_penalty: 45, size_penalty: 3, speed_penalty: 4 }
    );
    assert_eq!(records[2].0, "cid");
    assert_eq!(
        records[2].1,
        UserScore { solved_levels: 1, time_penalty: 7, size_penalty: 3, speed_penalty: 4 }
    );
}

#[test]
fn level_scores_saturate() {
    let mut global = Scoreboard::new();
    global.add_user_evaluation("ana", i64::MAX - 1, u64::MAX, 1);
    let mut level = Scoreboard::new();
    level.add_user_evaluation("ana", 10, 5, 2);
    global.add_level_scores(&level);
    let records = global.records();
    assert_eq!(
        records[0].1,
        UserScore {
            solved_levels: 2,
            time_penalty: i64::MAX,
            size_penalty: u64::MAX,
            speed_penalty: 3
        }
    );
}

fn ranked_users(board: &pacman_core::contract::Scoreboard) -> Vec<(String, u64, String)> {
    board
        .entries
        .iter()
        .map(|e| (e.user.clone(), e.solved, e.tie_breaker.clone()))
        .collect()
}

#[test]
fn ranking_orders_by_solved_then_penalty_then_name() {
    let mut global = Scoreboard::new();
    let mut first = Scoreboard::new();
    first.add_user_evaluation("dan", 100, 3, 4);
    first.add_user_evaluation("bea", 100, 2, 4);
    first.add_user_evaluation("abe", 72, 5, 1);
    global.add_level_scores(&first);
    let mut second = Scoreboard::new();
    second.add_user_evaluation("zoe", 500, 9, 9);
    global.add_level_scores(&second);
    global.add_level_scores(&second);

    let by_time = global.to_contract_with_time("Total");
    assert_eq!(by_time.title, "Total");
    assert_eq!(
        ranked_users(&by_time),
        vec![
            ("zoe".to_string(), 2, "16:40".to_string()),
            ("abe".to_string(), 1, "1:12".to_string()),
            ("bea".to_string(), 1, "1:40".to_string()),
            ("dan".to_string(), 1, "1:40".to_string()),
        ]
    );

    let by_size = global.to_contract_with_size("Size");
    assert_eq!(
        ranked_users(&by_size),
        vec![
            ("zoe".to_string(), 2, "18".to_string()),
            ("bea".to_string(), 1, "2".to_string()),
            ("dan".to_string(), 1, "3".to_string()),
            ("abe".to_string(), 1, "5".to_string()),
        ]
    );

    let by_speed = global.to_contract_with_speed("Speed");
    assert_eq!(
        ranked_users(&by_speed),
        vec![
            ("zoe".to_string(), 2, "18".to_string()),
            ("abe".to_string(), 1, "1".to_string()),
            ("bea".to_string(), 1, "4".to_string()),
            ("dan".to_string(), 1, "4".to_string()),
        ]
    );
}

#[test]
fn ranking_of_empty_board_is_empty() {
    let board = Scoreboard::new();
    let view = board.to_contract_with_time("Results");
    assert_eq!(view.title, "Results");
    assert!(view.entries.is_empty());
}

#[test]
fn records_round_trip() {
    let records = vec![
        ("ana".to_string(), UserScore { solved_levels: 2, time_penalty: -3, size_penalty: 4, speed_penalty: 5 }),
        ("bob".to_string(), UserScore { solved_levels: 1, time_penalty: 9, size_penalty: 1, speed_penalty: 0 }),
    ];
    let board = Scoreboard::from_records(&records).expect("distinct users");
    assert_eq!(board.records(), records);
    let duplicated = vec![records[0].clone(), records[0].clone()];
    assert!(Scoreboard::from_records(&duplicated).is_none());
}
