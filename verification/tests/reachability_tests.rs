use hue_scheduler::reachability::{
    get_scheduled_scenes, group_should_turn_off, ignored_light_ids, is_attached_light,
    scene_should_trigger, winning_scenes, LightSnapshot, LightStates, SceneSnapshot,
    ScheduledScene, StateChange,
};
use hue_scheduler::time_range_parser::TimeRangeParser;

fn light(id: &str, name: &str, reachable: bool, on: bool) -> LightSnapshot {
    LightSnapshot {
        id: id.to_string(),
        name: name.to_string(),
        reachable,
        on,
    }
}

#[test]
fn test_attached_marker() {
    assert!(is_attached_light(&light("1", "Hall spot (att)", true, false)));
    assert!(!is_attached_light(&light("2", "Hall spot", true, false)));
    assert!(!is_attached_light(&light("3", "(att) spot", true, false)));
    assert!(!is_attached_light(&light("4", "att)", true, false)));
}

#[test]
fn test_first_observation_does_not_trigger() {
    let mut states = LightStates::new();
    let all = vec![
        light("a", "Lamp a", true, false),
        light("b", "Lamp b", false, false),
    ];

    // Every device is new, so every non-attached device counts as changed.
    let changed = states.changed_lights(&all);
    assert_eq!(changed, vec![0, 1]);

    // The bootstrap records them without a flip time: nothing triggers,
    // even though lamp a is reachable.
    states.initialize(&all, &changed);
    let triggers = states.trigger_lights(1_000, 60_000);
    assert!(triggers.is_empty());

    let scene_lights = vec!["a".to_string()];
    assert!(!scene_should_trigger(&scene_lights, &vec![], &triggers));
}

#[test]
fn test_flip_triggers_within_window_and_clears() {
    let mut states = LightStates::new();
    let all = vec![light("a", "Lamp a", false, false)];
    let changed = states.changed_lights(&all);
    states.initialize(&all, &changed);

    // The lamp flips to reachable at time 5000.
    let all = vec![light("a", "Lamp a", true, false)];
    let changed = states.changed_lights(&all);
    assert_eq!(changed, vec![0]);
    states.record_flips(&all, &changed, 5_000);

    // Within the window the flip is eligible to trigger.
    let triggers = states.trigger_lights(6_000, 60_000);
    assert_eq!(triggers, vec!["a".to_string()]);
    let scene_lights = vec!["a".to_string()];
    assert!(scene_should_trigger(&scene_lights, &vec![], &triggers));

    // Past the window it is not.
    let triggers = states.trigger_lights(70_000, 60_000);
    assert!(triggers.is_empty());

    // Once the scene has triggered, the flip time is cleared and a cycle
    // with no new flips cannot re-trigger the scene.
    states.clear_scene_timestamps(&scene_lights);
    let triggers = states.trigger_lights(6_000, 60_000);
    assert!(triggers.is_empty());
    assert!(!scene_should_trigger(&scene_lights, &vec![], &triggers));

    // With no new flips, the next cycle sees no changed lights either.
    let changed = states.changed_lights(&all);
    assert_eq!(changed, Vec::<usize>::new());
}

#[test]
fn test_exempt_devices_do_not_block_a_scene() {
    let mut states = LightStates::new();
    let all = vec![
        light("a", "Lamp a", false, false),
        light("b", "Spot (att)", true, true),
    ];
    let changed = states.changed_lights(&all);
    // The attached device is not tracked.
    assert_eq!(changed, vec![0]);
    states.initialize(&all, &changed);

    let all = vec![
        light("a", "Lamp a", true, false),
        light("b", "Spot (att)", true, true),
    ];
    let changed = states.changed_lights(&all);
    states.record_flips(&all, &changed, 1_000);

    let ignored = ignored_light_ids(&all);
    assert_eq!(ignored, vec!["b".to_string()]);

    let triggers = states.trigger_lights(1_500, 60_000);
    let scene_lights = vec!["a".to_string(), "b".to_string()];
    assert!(scene_should_trigger(&scene_lights, &ignored, &triggers));
}

#[test]
fn test_group_shutoff() {
    let mut states = LightStates::new();
    let all = vec![
        light("a", "Lamp a", true, true),
        light("b", "Spot (att)", true, true),
    ];
    let changed = states.changed_lights(&all);
    states.initialize(&all, &changed);

    let group = vec!["a".to_string(), "b".to_string()];
    let ignored = ignored_light_ids(&all);

    // Lamp a is reachable: the group stays.
    assert!(!group_should_turn_off(&group, &all, &states, &ignored));

    // Lamp a loses power; the attached spot still reports on. Every
    // non-attached device of the group is unreachable, so the whole
    // group, attached spot included, is commanded off.
    let all = vec![
        light("a", "Lamp a", false, false),
        light("b", "Spot (att)", true, true),
    ];
    let changed = states.changed_lights(&all);
    states.record_flips(&all, &changed, 9_000);
    assert!(group_should_turn_off(&group, &all, &states, &ignored));

    // With every device reported off there is nothing left to switch.
    let all = vec![
        light("a", "Lamp a", false, false),
        light("b", "Spot (att)", true, false),
    ];
    assert!(!group_should_turn_off(&group, &all, &states, &ignored));
}

fn scene(id: &str, name: &str, lights: &[&str]) -> SceneSnapshot {
    SceneSnapshot {
        id: id.to_string(),
        name: name.to_string(),
        lights: Some(lights.iter().map(|s| s.to_string()).collect()),
    }
}

#[test]
fn test_scheduled_scenes_pick_latest_start_per_target() {
    let parser = TimeRangeParser::new();
    let scenes = vec![
        scene("broad", "All day (6h-23h)", &["a", "b"]),
        scene("noon", "Midday (11h-14h)", &["b", "a"]),
        scene("other", "Elsewhere (10h-15h)", &["c"]),
        scene("night", "Night (23h-5h)", &["a", "b"]),
    ];

    // At 12:00 the midday scene wins over the broad one: both address
    // the same device set and the midday window starts later.
    let scheduled = get_scheduled_scenes(&parser, &scenes, 720);
    assert_eq!(scheduled.len(), 2);
    assert_eq!(scheduled[0].scene_id, "noon".to_string());
    assert_eq!((scheduled[0].start, scheduled[0].end), (660, 840));
    assert_eq!(scheduled[1].scene_id, "other".to_string());

    // At 23:30 only the wrapping night scene covers "now".
    let scheduled = get_scheduled_scenes(&parser, &scenes, 1410);
    assert_eq!(scheduled.len(), 1);
    assert_eq!(scheduled[0].scene_id, "night".to_string());
}

#[test]
fn test_scheduled_scene_without_lights_is_skipped() {
    let parser = TimeRangeParser::new();
    let scenes = vec![SceneSnapshot {
        id: "s".to_string(),
        name: "All day (0h-24h)".to_string(),
        lights: None,
    }];
    assert_eq!(get_scheduled_scenes(&parser, &scenes, 720), vec![]);
}

#[test]
fn test_winning_scenes_resolve_overlap() {
    let scheduled = vec![
        ScheduledScene::new("broad", 0, 100),
        ScheduledScene::new("narrow", 25, 75),
    ];
    // The narrow schedule wins its own span.
    assert_eq!(
        winning_scenes(scheduled.clone(), 50),
        vec![ScheduledScene::new("narrow", 25, 75)]
    );
    // Outside it, the broad one holds.
    assert_eq!(
        winning_scenes(scheduled.clone(), 80),
        vec![ScheduledScene::new("broad", 75, 100)]
    );
    // Past both, nothing is active.
    assert_eq!(winning_scenes(scheduled, 150), vec![]);
}

#[test]
fn test_tracker_state_is_replaced_per_device() {
    let mut states = LightStates::new();
    let all = vec![light("a", "Lamp a", true, false)];
    let changed = states.changed_lights(&all);
    states.initialize(&all, &changed);

    assert_eq!(
        states.get("a"),
        Some(StateChange {
            timestamp: None,
            reachable: true
        })
    );
    assert_eq!(states.get("b"), None);

    let all = vec![light("a", "Lamp a", false, false)];
    let changed = states.changed_lights(&all);
    states.record_flips(&all, &changed, 42);
    assert_eq!(
        states.get("a"),
        Some(StateChange {
            timestamp: Some(42),
            reachable: false
        })
    );
}
