use hue_scheduler::schedule::{
    extract_minutes, extract_time_range, linearize_schedules, ScheduledScene,
};

#[test]
fn schedule_test_extract_time_range() {
    // Valid formats
    assert_eq!(
        extract_time_range(&"Test (10h-20h)".to_string()),
        Some((10 * 60, 20 * 60))
    );
    assert_eq!(
        extract_time_range(&"Test (12:23h-20h)".to_string()),
        Some((12 * 60 + 23, 20 * 60))
    );
    assert_eq!(
        extract_time_range(&"Test (12:23h-20:59h)".to_string()),
        Some((12 * 60 + 23, 20 * 60 + 59))
    );
    assert_eq!(
        extract_time_range(&"Test (0:01h-0:00h)".to_string()),
        Some((1, 0))
    );
    assert_eq!(
        extract_time_range(&"Test (0:00h-0:00h)".to_string()),
        Some((0, 0))
    );

    // An hour of 24 is the end-of-day mark: zero minutes only.
    assert_eq!(
        extract_time_range(&"Test (22h-24h)".to_string()),
        Some((22 * 60, 24 * 60))
    );
    assert_eq!(extract_time_range(&"Test (22h-24:30h)".to_string()), None);

    // Invalid formats
    assert_eq!(extract_time_range(&"Test (0:1h-0:0h)".to_string()), None);
    assert_eq!(extract_time_range(&"Test (10h-20:60h)".to_string()), None);
    assert_eq!(extract_time_range(&"Test (10h-25h)".to_string()), None);
    assert_eq!(extract_time_range(&"Test (10h-20h".to_string()), None);
    assert_eq!(extract_time_range(&"Test 10h-20h)".to_string()), None);
}

#[test]
fn test_linearize_schedules_no_change() {
    assert_eq!(
        linearize_schedules(vec![ScheduledScene::new("1", 0, 10)]),
        vec![ScheduledScene::new("1", 0, 10)]
    );

    assert_eq!(
        linearize_schedules(vec![
            ScheduledScene::new("1", 0, 10),
            ScheduledScene::new("2", 50, 100),
            ScheduledScene::new("3", 100, 200),
        ]),
        vec![
            ScheduledScene::new("1", 0, 10),
            ScheduledScene::new("2", 50, 100),
            ScheduledScene::new("3", 100, 200),
        ]
    );
}

#[test]
fn test_linearize_schedules_overlapping() {
    assert_eq!(
        linearize_schedules(vec![
            ScheduledScene::new("1", 0, 100),
            ScheduledScene::new("2", 25, 75),
        ]),
        vec![
            ScheduledScene::new("1", 0, 25),
            ScheduledScene::new("2", 25, 75),
            ScheduledScene::new("1", 75, 100),
        ]
    );
}

#[test]
fn test_linearize_schedules_enclosed() {
    assert_eq!(
        linearize_schedules(vec![
            ScheduledScene::new("1", 0, 100),
            ScheduledScene::new("2", 25, 100),
            ScheduledScene::new("2", 0, 25),
        ]),
        vec![ScheduledScene::new("2", 0, 100)]
    );
}

#[test]
fn test_linearize_schedules_overflow() {
    assert_eq!(
        linearize_schedules(vec![
            ScheduledScene::new("1", 0, 100),
            ScheduledScene::new("2", 50, 100),
            ScheduledScene::new("3", 70, 120),
            ScheduledScene::new("2", 75, 100),
        ]),
        vec![
            ScheduledScene::new("1", 0, 50),
            ScheduledScene::new("2", 50, 70),
            ScheduledScene::new("3", 70, 75),
            ScheduledScene::new("2", 75, 100),
            ScheduledScene::new("3", 100, 120),
        ]
    );
}

#[test]
fn test_linearize_twice_matches_once() {
    // Re-feeding a linearized schedule leaves it unchanged.
    let once = linearize_schedules(vec![
        ScheduledScene::new("1", 0, 100),
        ScheduledScene::new("2", 25, 75),
    ]);
    assert_eq!(linearize_schedules(once.clone()), once);

    let once = linearize_schedules(vec![
        ScheduledScene::new("1", 0, 100),
        ScheduledScene::new("2", 50, 100),
        ScheduledScene::new("3", 70, 120),
        ScheduledScene::new("2", 75, 100),
    ]);
    assert_eq!(linearize_schedules(once.clone()), once);
}

#[test]
fn test_linearize_drops_widthless_entries() {
    assert_eq!(
        linearize_schedules(vec![
            ScheduledScene::new("1", 5, 5),
            ScheduledScene::new("2", 10, 20),
        ]),
        vec![ScheduledScene::new("2", 10, 20)]
    );
}

#[test]
fn test_extract_minutes_values() {
    assert_eq!(extract_minutes(&"12:23".to_string()), Ok(Some(743)));
    assert_eq!(extract_minutes(&"12".to_string()), Ok(Some(720)));
    assert_eq!(extract_minutes(&"0:00".to_string()), Ok(Some(0)));
    assert_eq!(extract_minutes(&"24".to_string()), Ok(Some(1440)));
    assert_eq!(extract_minutes(&"24:00".to_string()), Ok(Some(1440)));
    // An hour of 24 is the end-of-day mark: zero minutes only.
    assert_eq!(extract_minutes(&"24:30".to_string()), Err(()));
    assert_eq!(extract_minutes(&"1:2:3".to_string()), Ok(None));
    assert_eq!(extract_minutes(&"25".to_string()), Err(()));
    assert_eq!(extract_minutes(&"12:60".to_string()), Err(()));
    assert_eq!(extract_minutes(&"abc".to_string()), Err(()));
    assert_eq!(extract_minutes(&"".to_string()), Err(()));
}
