use stashit::stash::{Stash, StashConfig, StashError, StashIt};

fn strings(v: &[&str]) -> Vec<String> {
    v.iter().map(|s| s.to_string()).collect()
}

fn engine(path: &str) -> StashIt {
    let mut stash_it = StashIt::default();
    stash_it.path = path.to_string();
    stash_it
}

#[test]
fn test_stash_config_default_path() {
    let stash_config = StashConfig::default();
    assert_eq!(stash_config.path, "~/.local/share/stashit/");
}

#[test]
fn test_list_empty_stash() {
    let stash_it = engine("/tmp/integrationtest0/stashit/");
    let result = stash_it.list(&vec![], &vec![]);
    assert_eq!(result.len(), 0);
}

#[test]
fn test_list() {
    let stash_it = engine("/tmp/integrationtest1/stashit/");
    let now: i64 = 1_700_000_000;
    let names = vec![now.to_string()];
    let result = stash_it.list(&names, &vec![]);
    assert_eq!(result.len(), 1);
    assert_eq!(result[0], now);
    let entry = stash_it.entry_path(now);
    let walked = vec![format!("{}/tmp/integrationtest/foo.txt", entry)];
    let item = Stash::from_walk(result[0], &walked);
    assert_eq!(item.stash_dir_name, now);
    assert_eq!(item.files.len(), 1);
    assert_eq!(item.files[0], "foo.txt");
}

#[test]
fn test_stash_file_no_keep() {
    let stash_it = engine("/tmp/integrationtest2/stashit/");
    let file_path = "/tmp/integrationtest/foo.txt".to_string();
    let files = vec![file_path.clone()];
    let plan = stash_it.stash("/home/user", &files, false).expect("could not stash files");
    assert_eq!(plan.copies.len(), 1);
    assert_eq!(plan.copies[0].source, file_path);
    assert_eq!(
        plan.copies[0].target,
        format!("/tmp/integrationtest2/stashit/{}/tmp/integrationtest/foo.txt", plan.timestamp)
    );
    assert_eq!(plan.remove, files);
    let result = stash_it.list(&vec![plan.timestamp.to_string()], &vec![]);
    assert_eq!(result, vec![plan.timestamp]);
}

#[test]
fn test_remove() {
    let stash_it = engine("/tmp/integrationtest3/stashit/");
    let now: i64 = 1_700_000_000;
    let dir = stash_it.remove(&vec![now.to_string()], 0).expect("remove");
    assert_eq!(dir, "/tmp/integrationtest3/stashit/1700000000");
    let result = stash_it.list(&vec![], &vec![]);
    assert_eq!(result.len(), 0);
}

#[test]
fn test_pop() {
    let stash_it = engine("/tmp/integrationtest4/stashit/");
    let now: i64 = 1_700_000_000;
    let dir = stash_it.pop(&vec![now.to_string()], 0).expect("could not pop last stash");
    assert_eq!(dir, "/tmp/integrationtest4/stashit/1700000000");
    let walked = vec![format!("{}/tmp/integrationtest/foo.txt", dir)];
    let copies = stash_it.restore(&dir, &walked);
    assert_eq!(copies.len(), 1);
    assert_eq!(copies[0].source, walked[0]);
    assert_eq!(copies[0].target, "/tmp/integrationtest/foo.txt");
}

#[test]
fn stash_with_keep_removes_nothing() {
    let stash_it = engine("/archive");
    let files = strings(&["/tmp/x/F"]);
    let plan = stash_it.stash_at(42, "/", &files, true).unwrap();
    assert_eq!(plan.timestamp, 42);
    assert_eq!(plan.entry, "/archive/42");
    assert_eq!(plan.copies[0].target, "/archive/42/tmp/x/F");
    assert!(plan.remove.is_empty());
}

#[test]
fn stash_resolves_relative_inputs_against_cwd() {
    let stash_it = engine("/archive/");
    let files = strings(&["notes.txt", "/etc/hosts"]);
    let plan = stash_it.stash_at(7, "/home/user", &files, false).unwrap();
    assert_eq!(plan.entry, "/archive/7");
    assert_eq!(plan.copies.len(), 2);
    assert_eq!(plan.copies[0].source, "notes.txt");
    assert_eq!(plan.copies[0].target, "/archive/7/home/user/notes.txt");
    assert_eq!(plan.copies[1].target, "/archive/7/etc/hosts");
    assert_eq!(plan.remove, files);
}

#[test]
fn stash_without_root_path_is_invalid_input() {
    let stash_it = engine("/archive");
    let files = strings(&["notes.txt"]);
    let r = stash_it.stash_at(7, "relative/dir", &files, false);
    assert_eq!(r.err(), Some(StashError::InvalidInput));
}

#[test]
fn stash_then_pop_restores_original_path() {
    let stash_it = engine("/archive");
    let files = strings(&["/tmp/x/F"]);
    let plan = stash_it.stash_at(1_700_000_000, "/", &files, false).unwrap();
    let copies = stash_it.restore(&plan.entry, &vec![plan.copies[0].target.clone()]);
    assert_eq!(copies.len(), 1);
    assert_eq!(copies[0].target, "/tmp/x/F");
}

#[test]
fn listing_is_newest_first_and_ignores_other_names() {
    let stash_it = engine("/archive");
    let names = strings(&["100", "notes", "300", "200", "12a", ""]);
    assert_eq!(stash_it.list(&names, &vec![]), vec![300, 200, 100]);
}

#[test]
fn listing_orders_by_number_not_by_text() {
    let stash_it = engine("/archive");
    let names = strings(&["9", "10", "-5", "+20"]);
    assert_eq!(stash_it.list(&names, &vec![]), vec![20, 10, 9, -5]);
}

#[test]
fn out_of_range_names_are_ignored() {
    let stash_it = engine("/archive");
    let names = strings(&["9223372036854775808", "9223372036854775807", "-9223372036854775808", "-", "+"]);
    assert_eq!(stash_it.list(&names, &vec![]), vec![i64::MAX, i64::MIN]);
}

#[test]
fn filtered_listing_selects_by_position() {
    let stash_it = engine("/archive");
    let names = strings(&["10", "30", "20"]);
    assert_eq!(stash_it.list(&names, &strings(&["1"])), vec![20]);
    assert_eq!(stash_it.list(&names, &strings(&["2", "0"])), vec![30, 10]);
    assert_eq!(stash_it.list(&names, &strings(&["01"])), Vec::<i64>::new());
    assert_eq!(stash_it.list(&names, &strings(&["3"])), Vec::<i64>::new());
}

#[test]
fn nonexistent_index_is_not_found() {
    let stash_it = engine("/archive");
    let names = strings(&["10"]);
    assert_eq!(stash_it.pop(&names, 1), Err(StashError::NotFound));
    assert_eq!(stash_it.remove(&names, 5), Err(StashError::NotFound));
    assert_eq!(stash_it.remove(&names, -1), Err(StashError::NotFound));
    assert_eq!(stash_it.get_stash_path_by_index(&names, 0), Some(10));
    assert_eq!(stash_it.pop(&vec![], 0), Err(StashError::NotFound));
}

#[test]
fn listing_shows_four_files_but_restore_takes_all() {
    let stash_it = engine("/archive");
    let dir = stash_it.entry_path(5);
    let walked: Vec<String> = (0..6).map(|i| format!("{}/data/f{}.txt", dir, i)).collect();
    let record = Stash::from_walk(5, &walked);
    assert_eq!(record.files, strings(&["f0.txt", "f1.txt", "f2.txt", "f3.txt"]));
    let copies = stash_it.restore(&dir, &walked);
    assert_eq!(copies.len(), 6);
    assert_eq!(copies[5].target, "/data/f5.txt");
}

#[test]
fn restore_skips_paths_outside_the_entry() {
    let stash_it = engine("/archive");
    let walked = strings(&["/archive/50/a", "/archive/5/b", "/archive/5", "/archive/5/"]);
    let copies = stash_it.restore("/archive/5", &walked);
    assert_eq!(copies.len(), 1);
    assert_eq!(copies[0].target, "/b");
}

#[test]
fn negative_timestamps_name_entries() {
    let stash_it = engine("/archive");
    assert_eq!(stash_it.entry_path(-12), "/archive/-12");
    assert_eq!(stash_it.entry_path(0), "/archive/0");
}

#[test]
fn home_shorthand_is_expanded() {
    let cfg = StashConfig { path: "~/stashes".to_string() };
    let e = StashIt::from_config_and_home(Some(cfg), Some("/home/ann".to_string()));
    assert_eq!(e.path, "/home/ann/stashes");
    let e = StashIt::from_config_and_home(None, Some("/home/ann".to_string()));
    assert_eq!(e.path, "/home/ann/.local/share/stashit/");
    let e = StashIt::from_config_and_home(None, None);
    assert_eq!(e.path, "/tmp/.local/share/stashit/");
    let cfg = StashConfig { path: "~user/x".to_string() };
    let e = StashIt::from_config_and_home(Some(cfg), Some("/home/ann".to_string()));
    assert_eq!(e.path, "~user/x");
}

#[test]
fn configured_absolute_path_is_kept() {
    let cfg = StashConfig { path: "/srv/stash".to_string() };
    let e = StashIt::from_config(Some(cfg));
    assert_eq!(e.path, "/srv/stash");
    let e = StashIt::from_config(None);
    assert!(e.path.ends_with(".local/share/stashit/"));
    assert!(!e.path.starts_with('~'));
}
