use carp::config::Target;
use carp::presence::{tick, Action, PresenceState, LINE_LIMIT};
use carp::resolver::{is_running, resolve};

fn target(p: &str, d: &str, i: &str) -> Target {
    Target { process_name: p.to_string(), display_name: d.to_string(), image: i.to_string() }
}

fn names(list: &[&str]) -> Vec<String> {
    list.iter().map(|s| s.to_string()).collect()
}

#[test]
fn resolver_picks_first_running_target() {
    let targets = vec![target("a.exe", "A", "ia"), target("b.exe", "B", "ib"), target(
        "c.exe",
        "C",
        "ic",
    )];
    // Both b and c run: the higher-priority b wins, regardless of order.
    let running = names(&["x.exe", "c.exe", "b.exe"]);
    assert_eq!(resolve(&targets, &running), Some(1));
}

#[test]
fn resolver_never_skips_a_running_higher_priority_target() {
    let targets = vec![target("a.exe", "A", "ia"), target("b.exe", "B", "ib")];
    let running = names(&["b.exe", "a.exe"]);
    assert_eq!(resolve(&targets, &running), Some(0));
}

#[test]
fn resolver_returns_none_when_nothing_matches() {
    let targets = vec![target("a.exe", "A", "ia")];
    assert_eq!(resolve(&targets, &names(&["x.exe"])), None);
    assert_eq!(resolve(&targets, &names(&[])), None);
    let empty: Vec<Target> = vec![];
    assert_eq!(resolve(&empty, &names(&["a.exe"])), None);
}

#[test]
fn is_running_matches_exact_names() {
    let running = names(&["code.exe", "game.exe"]);
    assert!(is_running(&running, &"game.exe".to_string()));
    assert!(!is_running(&running, &"game".to_string()));
}

#[test]
fn tick_idle_with_nothing_resolved_is_a_noop() {
    let (state, action) = tick(PresenceState::Idle, None, 100);
    assert_eq!(state, PresenceState::Idle);
    assert_eq!(action, Action::Noop);
}

#[test]
fn tick_announcing_with_nothing_resolved_clears() {
    let announcing =
        PresenceState::Announcing { process_name: "a.exe".to_string(), start_time: 50 };
    let (state, action) = tick(announcing, None, 100);
    assert_eq!(state, PresenceState::Idle);
    assert_eq!(action, Action::Clear);
}

#[test]
fn tick_same_identity_is_a_noop_and_preserves_start_time() {
    let t = target("a.exe", "App A", "img-a");
    let announcing =
        PresenceState::Announcing { process_name: "a.exe".to_string(), start_time: 50 };
    let (state, action) = tick(announcing.clone(), Some(&t), 100);
    assert_eq!(state, announcing);
    assert_eq!(action, Action::Noop);
}

#[test]
fn tick_new_identity_updates_with_fresh_start_time() {
    let t = target("a.exe", "App A", "img-a");
    let (state, action) = tick(PresenceState::Idle, Some(&t), 100);
    assert_eq!(
        state,
        PresenceState::Announcing { process_name: "a.exe".to_string(), start_time: 100 }
    );
    match action {
        Action::Update { details, state_line, image, start } => {
            assert_eq!(details.as_str(), "App A");
            assert_eq!(state_line, None);
            assert_eq!(image.as_str(), "img-a");
            assert_eq!(start, 100);
        },
        other => panic!("expected an update, got {:?}", other),
    }
}

#[test]
fn tick_identity_change_switches_announcement() {
    let t = target("b.exe", "Alpha Bravo Charlie Delta Echo Foxtrot Golf", "img-b");
    let announcing =
        PresenceState::Announcing { process_name: "a.exe".to_string(), start_time: 50 };
    let (state, action) = tick(announcing, Some(&t), 200);
    assert_eq!(
        state,
        PresenceState::Announcing { process_name: "b.exe".to_string(), start_time: 200 }
    );
    match action {
        Action::Update { details, state_line, .. } => {
            assert_eq!(details.as_str(), "Alpha Bravo Charlie Delta Echo");
            assert_eq!(state_line.as_deref(), Some("Foxtrot Golf"));
        },
        other => panic!("expected an update, got {:?}", other),
    }
}

#[test]
fn line_limit_matches_the_presence_display() {
    assert_eq!(LINE_LIMIT, 35);
}
