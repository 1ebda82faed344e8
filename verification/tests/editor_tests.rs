use carp::config::{
    add_process, edit_process, get_process_index, move_process, remove_process, Config,
    ConfigReorderOperation, EditError, Target,
};

fn target(p: &str, d: &str, i: &str) -> Target {
    Target { process_name: p.to_string(), display_name: d.to_string(), image: i.to_string() }
}

fn sample_config() -> Config {
    Config {
        client_id: 7,
        targets: vec![target("a.exe", "App A", "img-a"), target("b.exe", "App B", "img-b"), target(
            "c.exe",
            "App C",
            "img-c",
        )],
    }
}

#[test]
fn add_appends_without_index() {
    let mut c = sample_config();
    assert_eq!(add_process(&mut c, "d.exe".into(), "App D".into(), "img-d".into(), None), Ok(()));
    assert_eq!(c.targets.len(), 4);
    assert_eq!(c.targets[3].process_name, "d.exe");
}

#[test]
fn add_inserts_at_index() {
    let mut c = sample_config();
    assert_eq!(
        add_process(&mut c, "d.exe".into(), "App D".into(), "img-d".into(), Some(1)),
        Ok(())
    );
    assert_eq!(c.targets[1].process_name, "d.exe");
    assert_eq!(c.targets[2].process_name, "b.exe");
}

#[test]
fn add_clamps_large_index_to_last_position() {
    let mut c = sample_config();
    assert_eq!(
        add_process(&mut c, "d.exe".into(), "App D".into(), "img-d".into(), Some(99)),
        Ok(())
    );
    // Clamped to the last index of the original list: before the old tail.
    assert_eq!(c.targets[2].process_name, "d.exe");
    assert_eq!(c.targets[3].process_name, "c.exe");
}

#[test]
fn add_with_index_on_empty_list_appends() {
    let mut c = Config { client_id: 0, targets: vec![] };
    assert_eq!(add_process(&mut c, "a.exe".into(), "A".into(), "i".into(), Some(5)), Ok(()));
    assert_eq!(c.targets.len(), 1);
    assert_eq!(c.targets[0].process_name, "a.exe");
}

#[test]
fn add_duplicate_fails_and_leaves_config_unchanged() {
    let mut c = sample_config();
    let before = c.clone();
    let r = add_process(&mut c, "b.exe".into(), "Other".into(), "other-img".into(), None);
    assert_eq!(r, Err(EditError::DuplicateTarget));
    assert_eq!(c, before);
}

#[test]
fn remove_deletes_the_entry() {
    let mut c = sample_config();
    assert_eq!(remove_process(&mut c, &"b.exe".to_string()), Ok(()));
    assert_eq!(c.targets.len(), 2);
    assert_eq!(c.targets[0].process_name, "a.exe");
    assert_eq!(c.targets[1].process_name, "c.exe");
}

#[test]
fn remove_missing_fails_and_leaves_config_unchanged() {
    let mut c = sample_config();
    let before = c.clone();
    assert_eq!(remove_process(&mut c, &"zz.exe".to_string()), Err(EditError::NotFound));
    assert_eq!(c, before);
}

#[test]
fn reorder_increase_at_top_is_a_noop_success() {
    let mut c = sample_config();
    let before = c.clone();
    let r = move_process(&mut c, &"a.exe".to_string(), ConfigReorderOperation::Increase);
    assert_eq!(r, Ok(()));
    assert_eq!(c, before);
}

#[test]
fn reorder_increase_moves_toward_front() {
    let mut c = sample_config();
    assert_eq!(
        move_process(&mut c, &"b.exe".to_string(), ConfigReorderOperation::Increase),
        Ok(())
    );
    assert_eq!(c.targets[0].process_name, "b.exe");
    assert_eq!(c.targets[1].process_name, "a.exe");
}

#[test]
fn reorder_decrease_clamps_at_end() {
    let mut c = sample_config();
    let before = c.clone();
    assert_eq!(
        move_process(&mut c, &"c.exe".to_string(), ConfigReorderOperation::Decrease),
        Ok(())
    );
    assert_eq!(c, before);
}

#[test]
fn reorder_set_index_moves_and_clamps() {
    let mut c = sample_config();
    assert_eq!(
        move_process(&mut c, &"a.exe".to_string(), ConfigReorderOperation::SetIndex(99)),
        Ok(())
    );
    assert_eq!(c.targets[2].process_name, "a.exe");
    assert_eq!(c.targets[0].process_name, "b.exe");
}

#[test]
fn reorder_missing_fails() {
    let mut c = sample_config();
    let before = c.clone();
    assert_eq!(
        move_process(&mut c, &"zz.exe".to_string(), ConfigReorderOperation::Increase),
        Err(EditError::NotFound)
    );
    assert_eq!(c, before);
}

#[test]
fn edit_applies_only_supplied_fields() {
    let mut c = sample_config();
    assert_eq!(
        edit_process(&mut c, &"b.exe".to_string(), None, Some("New B".to_string()), None),
        Ok(())
    );
    assert_eq!(c.targets[1].process_name, "b.exe");
    assert_eq!(c.targets[1].display_name, "New B");
    assert_eq!(c.targets[1].image, "img-b");
}

#[test]
fn edit_renames_the_key() {
    let mut c = sample_config();
    assert_eq!(
        edit_process(&mut c, &"b.exe".to_string(), Some("b2.exe".to_string()), None, None),
        Ok(())
    );
    assert_eq!(c.targets[1].process_name, "b2.exe");
    assert_eq!(get_process_index(&c.targets, &"b.exe".to_string()), None);
}

#[test]
fn edit_rename_colliding_with_other_entry_fails_unchanged() {
    let mut c = sample_config();
    let before = c.clone();
    assert_eq!(
        edit_process(&mut c, &"b.exe".to_string(), Some("c.exe".to_string()), None, None),
        Err(EditError::DuplicateTarget)
    );
    assert_eq!(c, before);
}

#[test]
fn edit_rename_to_own_name_succeeds() {
    let mut c = sample_config();
    assert_eq!(
        edit_process(&mut c, &"b.exe".to_string(), Some("b.exe".to_string()), None, None),
        Ok(())
    );
    assert_eq!(c.targets[1].process_name, "b.exe");
}

#[test]
fn edit_missing_fails() {
    let mut c = sample_config();
    assert_eq!(
        edit_process(&mut c, &"zz.exe".to_string(), None, Some("X".to_string()), None),
        Err(EditError::NotFound)
    );
}

#[test]
fn get_process_index_finds_first_match() {
    let c = sample_config();
    assert_eq!(get_process_index(&c.targets, &"c.exe".to_string()), Some(2));
    assert_eq!(get_process_index(&c.targets, &"missing".to_string()), None);
}

#[test]
fn default_config_is_empty() {
    let c = Config::default();
    assert_eq!(c.client_id, 0);
    assert!(c.targets.is_empty());
}
