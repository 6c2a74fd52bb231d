use boxy_catalog::filename::{is_clip_filename, parse_timestamp};
use boxy_catalog::media::compress_clip;
use boxy_catalog::model::Clip;
use boxy_catalog::scan::{
    get_watch_dirs, resolve_watch_dirs, scan_dirs, scan_found, set_watch_dirs, FoundFile,
};
use boxy_catalog::schema::pending_migrations;
use boxy_catalog::store::DbState;
use boxy_catalog::watcher::{
    batch_qualifies, watch_step, ChangeKind, WatchAction, WatchEvent, WatchInput, WatchState,
};

fn ready() -> DbState {
    let mut db = DbState::in_memory().unwrap();
    db.init().unwrap();
    db
}

fn found(path: &str, parent: &str, size: u64, depth: usize) -> FoundFile {
    let filename = path.rsplit('/').next().unwrap().to_string();
    FoundFile {
        path: path.to_string(),
        filename,
        parent_name: Some(parent.to_string()),
        size: Some(size),
        depth,
        is_file: true,
    }
}

fn clip(id: &str, path: &str, recorded_at: i64) -> Clip {
    Clip {
        id: id.to_string(),
        filename: format!("{}.mp4", id),
        path: path.to_string(),
        dir_source: "test".to_string(),
        recorded_at,
        file_size: 1,
        duration_ms: None,
        width: None,
        height: None,
        thumb_path: None,
        description: String::new(),
        tags: vec![],
        starred: false,
        created_at: 1,
        updated_at: 1,
    }
}

fn mp4_event(ext: &str, kind: ChangeKind) -> WatchEvent {
    WatchEvent { extension: Some(ext.to_string()), kind }
}

#[test]
fn timestamps_parse_with_space_or_underscore() {
    assert_eq!(parse_timestamp("2026-01-28 18-40-28.mp4"), Some(1769625628));
    assert_eq!(parse_timestamp("2026-02-17_14-36-20.mp4"), Some(1771338980));
    assert_eq!(parse_timestamp("2024-02-29 00-00-00.mp4"), Some(1709164800));
    assert_eq!(parse_timestamp("1970-01-01 00-00-00.mp4"), Some(0));
}

#[test]
fn malformed_names_are_skipped() {
    assert_eq!(parse_timestamp("not-a-timestamp.mp4"), None);
    assert_eq!(parse_timestamp("2026-02-30 10-00-00.mp4"), None);
    assert_eq!(parse_timestamp("2025-02-29 10-00-00.mp4"), None);
    assert_eq!(parse_timestamp("2026-01-28 24-00-00.mp4"), None);
    assert_eq!(parse_timestamp("2026-13-01 10-00-00.mp4"), None);
    assert_eq!(parse_timestamp("2026-01-28 18-40-60.mp4"), None);
    assert!(!is_clip_filename("2026-01-28T18-40-28.mp4"));
    assert!(!is_clip_filename("2026-01-28 18-40-28.MP4"));
    assert!(!is_clip_filename("2026-01-28 18-40-28.mp4.part"));
    assert!(is_clip_filename("2026-02-30 10-00-00.mp4"));
}

#[test]
fn end_to_end_two_watch_directories() {
    let mut db = ready();
    let entries = vec![
        found("/home/u/Captures/2026-01-28 18-40-28.mp4", "Captures", 1024, 1),
        found("/home/u/Videos/Clips/2026-01-29_09-00-00.mp4", "Clips", 2048, 2),
        found("/home/u/Videos/notes.txt", "Videos", 5, 1),
    ];
    let clips = scan_dirs(&mut db, &entries, &[]).unwrap();
    assert_eq!(clips.len(), 2);
    assert_eq!(clips[0].filename, "2026-01-29_09-00-00.mp4");
    assert_eq!(clips[0].dir_source, "clips");
    assert_eq!(clips[0].recorded_at, 1769677200);
    assert_eq!(clips[1].filename, "2026-01-28 18-40-28.mp4");
    assert_eq!(clips[1].dir_source, "captures");
    assert_eq!(clips[1].file_size, 1024);
    assert_eq!(clips[0].id.len(), 36);
    assert_ne!(clips[0].id, clips[1].id);
    assert!(clips[0].created_at > 1_600_000_000);
}

#[test]
fn second_scan_changes_nothing() {
    let mut db = ready();
    let entries = vec![
        found("/a/2026-01-28 18-40-28.mp4", "a", 10, 1),
        found("/a/sub/2026-01-29_09-00-00.mp4", "sub", 20, 2),
    ];
    let first = scan_dirs(&mut db, &entries, &[]).unwrap();
    let second = scan_dirs(&mut db, &entries, &[]).unwrap();
    assert_eq!(first.len(), 2);
    assert_eq!(second.len(), 2);
    for (a, b) in first.iter().zip(second.iter()) {
        assert_eq!(a.id, b.id);
        assert_eq!(a.path, b.path);
        assert_eq!(a.updated_at, b.updated_at);
    }
}

#[test]
fn overlapping_directories_give_one_clip() {
    let mut db = ready();
    let entries = vec![
        found("/a/2026-01-28 18-40-28.mp4", "a", 10, 1),
        found("/a/2026-01-28 18-40-28.mp4", "a", 10, 2),
    ];
    let clips = scan_dirs(&mut db, &entries, &[]).unwrap();
    assert_eq!(clips.len(), 1);
}

#[test]
fn scan_ignores_depth_and_non_files() {
    let mut db = ready();
    let mut deep = found("/a/x/y/2026-01-28 18-40-28.mp4", "y", 10, 3);
    let mut dir = found("/a/2026-01-29_09-00-00.mp4", "a", 0, 1);
    dir.is_file = false;
    let clips = scan_dirs(&mut db, &vec![deep, dir], &[]).unwrap();
    assert!(clips.is_empty());
    deep = found("/a/2026-01-28 18-40-28.mp4", "a", 10, 1);
    deep.size = None;
    deep.parent_name = None;
    let clips = scan_dirs(&mut db, &vec![deep], &[]).unwrap();
    assert_eq!(clips[0].file_size, 0);
    assert_eq!(clips[0].dir_source, "unknown");
}

#[test]
fn scan_with_given_ids_and_time() {
    let mut db = ready();
    let entries = vec![found("/a/2026-01-28 18-40-28.mp4", "Cam", 7, 1)];
    let clips = scan_found(&mut db, &entries, &[], &vec!["id-1".to_string()], 42).unwrap();
    assert_eq!(clips[0].id, "id-1");
    assert_eq!(clips[0].created_at, 42);
    assert_eq!(clips[0].updated_at, 42);
    assert_eq!(clips[0].dir_source, "cam");
}

#[test]
fn orphan_is_removed_with_everything_attached() {
    let mut db = ready();
    db.insert_clip(&clip("c1", "/gone/2026-01-28 18-40-28.mp4", 5)).unwrap();
    db.insert_clip(&clip("c2", "/kept/2026-01-29_09-00-00.mp4", 6)).unwrap();
    db.create_tag("t1", "keep", "#000").unwrap();
    db.add_clip_tag("c1", "t1").unwrap();
    db.create_collection("col", "Col", "#fff").unwrap();
    db.add_clips_to_collection("col", &["c1".to_string(), "c2".to_string()]).unwrap();
    db.upsert_embedding("c1", &[1, 2]).unwrap();
    db.save_waveform("c1", &[3, 4], 1).unwrap();

    let missing = vec!["/gone/2026-01-28 18-40-28.mp4".to_string()];
    let clips = scan_dirs(&mut db, &vec![], &missing).unwrap();
    assert_eq!(clips.len(), 1);
    assert_eq!(clips[0].id, "c2");
    let tags = db.get_all_tags().unwrap();
    assert_eq!(tags.len(), 1);
    assert_eq!(tags[0].clip_count, Some(0));
    assert_eq!(db.get_collection_clip_ids("col").unwrap(), vec!["c2".to_string()]);
    assert!(db.get_all_embeddings().unwrap().is_empty());
    assert!(db.get_waveform("c1").unwrap().is_none());
}

#[test]
fn clips_come_newest_first() {
    let mut db = ready();
    db.insert_clip(&clip("old", "/1.mp4", 100)).unwrap();
    db.insert_clip(&clip("new", "/2.mp4", 300)).unwrap();
    db.insert_clip(&clip("mid", "/3.mp4", 200)).unwrap();
    db.insert_clip(&clip("mid2", "/4.mp4", 200)).unwrap();
    let ids: Vec<String> = db.get_all_clips().unwrap().into_iter().map(|c| c.id).collect();
    assert_eq!(ids, vec!["new", "mid", "mid2", "old"]);
}

#[test]
fn insert_with_taken_id_is_ignored() {
    let mut db = ready();
    db.insert_clip(&clip("c1", "/1.mp4", 1)).unwrap();
    db.insert_clip(&clip("c1", "/2.mp4", 1)).unwrap();
    assert_eq!(db.get_all_clips().unwrap().len(), 1);
}

#[test]
fn deleting_a_clip_keeps_tag_and_collection_rows() {
    let mut db = ready();
    db.insert_clip(&clip("c1", "/1.mp4", 1)).unwrap();
    db.create_tag("t1", "tag", "#000").unwrap();
    db.add_clip_tag("c1", "t1").unwrap();
    db.create_collection("col", "Col", "#fff").unwrap();
    db.add_clips_to_collection("col", &["c1".to_string()]).unwrap();
    db.delete_clips(&["c1".to_string()]).unwrap();
    let tags = db.get_all_tags().unwrap();
    assert_eq!(tags.len(), 1);
    assert_eq!(tags[0].name, "tag");
    let cols = db.get_all_collections().unwrap();
    assert_eq!(cols.len(), 1);
    assert_eq!(cols[0].clip_count, 0);
}

#[test]
fn deleting_a_tag_untags_clips() {
    let mut db = ready();
    db.insert_clip(&clip("c1", "/1.mp4", 1)).unwrap();
    db.create_tag("t1", "a", "#000").unwrap();
    db.create_tag("t2", "b", "#000").unwrap();
    db.add_clip_tag("c1", "t1").unwrap();
    db.add_clip_tag("c1", "t2").unwrap();
    db.add_clip_tag("c1", "t1").unwrap();
    assert_eq!(db.get_all_clips().unwrap()[0].tags, vec!["t1", "t2"]);
    db.delete_tag("t1").unwrap();
    assert_eq!(db.get_all_clips().unwrap()[0].tags, vec!["t2"]);
}

#[test]
fn repeated_init_keeps_version() {
    let mut db = DbState::in_memory().unwrap();
    for _ in 0..3 {
        db.init().unwrap();
    }
    assert_eq!(db.get_meta("schema_version").unwrap(), Some("2".to_string()));
}

#[test]
fn init_refuses_to_add_the_star_column_twice() {
    let mut db = ready();
    db.set_meta("schema_version", "1").unwrap();
    assert_eq!(db.init(), Err("duplicate column name: starred".to_string()));
    db.set_meta("schema_version", "not a number").unwrap();
    assert!(db.init().is_err());
    db.set_meta("schema_version", "+7").unwrap();
    assert!(db.init().is_ok());
    assert_eq!(db.get_meta("schema_version").unwrap(), Some("2".to_string()));
}

#[test]
fn migration_steps_follow_the_version() {
    assert_eq!(pending_migrations(0), vec![1, 2]);
    assert_eq!(pending_migrations(-4), vec![1, 2]);
    assert_eq!(pending_migrations(1), vec![2]);
    assert_eq!(pending_migrations(2), Vec::<u32>::new());
}

#[test]
fn refused_writes_change_nothing() {
    let mut db = ready();
    db.insert_clip(&clip("c1", "/1.mp4", 1)).unwrap();
    db.create_tag("t1", "a", "#000").unwrap();
    assert_eq!(db.create_tag("t1", "other", "#000").unwrap_err(), "UNIQUE constraint failed: tags.id");
    assert_eq!(db.create_tag("t2", "a", "#000").unwrap_err(), "UNIQUE constraint failed: tags.name");
    assert!(db.add_clip_tag("nope", "t1").is_err());
    assert!(db.add_clip_tag("c1", "nope").is_err());
    assert!(db.bulk_add_tag(&["c1".to_string(), "nope".to_string()], "t1").is_err());
    assert!(db.get_all_clips().unwrap()[0].tags.is_empty());
    db.create_collection("col", "Col", "#fff").unwrap();
    assert!(db.create_collection("col", "Again", "#fff").is_err());
    assert!(db.add_clips_to_collection("col", &["c1".to_string(), "nope".to_string()]).is_err());
    assert!(db.add_clips_to_collection("nope", &["c1".to_string()]).is_err());
    assert!(db.get_collection_clip_ids("col").unwrap().is_empty());
    db.create_smart_folder("sf", "F", "#000", "[]").unwrap();
    assert!(db.create_smart_folder("sf", "G", "#000", "[]").is_err());
    assert!(db.save_waveform("nope", &[1], 1).is_err());
    assert!(db.upsert_embedding("nope", &[1]).is_err());
    assert!(db.get_all_embeddings().unwrap().is_empty());
}

#[test]
fn watch_dirs_round_trip_through_metadata() {
    let mut db = ready();
    let dirs = vec!["/v/one".to_string(), "/v/two".to_string()];
    set_watch_dirs(&mut db, &dirs).unwrap();
    assert_eq!(db.get_meta("watch_dirs").unwrap(), Some(r#"["/v/one","/v/two"]"#.to_string()));
    assert_eq!(get_watch_dirs(&db), dirs);
    db.set_meta("watch_dirs", "[]").unwrap();
    assert!(get_watch_dirs(&db).len() <= 1);
    db.set_meta("watch_dirs", "not json").unwrap();
    assert!(get_watch_dirs(&db).len() <= 1);
}

#[test]
fn watch_dirs_fall_back_to_default() {
    let p = Some(vec!["/x".to_string()]);
    assert_eq!(resolve_watch_dirs(p, Some("/d".to_string())), vec!["/x".to_string()]);
    assert_eq!(resolve_watch_dirs(Some(vec![]), Some("/d".to_string())), vec!["/d".to_string()]);
    assert_eq!(resolve_watch_dirs(None, Some("/d".to_string())), vec!["/d".to_string()]);
    assert!(resolve_watch_dirs(None, None).is_empty());
}

#[test]
fn a_burst_of_clip_events_runs_one_scan() {
    let burst: Vec<WatchEvent> = (0..5).map(|_| mp4_event("mp4", ChangeKind::Any)).collect();
    let (state, action) = watch_step(WatchState::Listening, &WatchInput::Batch(burst));
    assert_eq!(state, WatchState::Listening);
    assert_eq!(action, WatchAction::Rescan);
}

#[test]
fn only_settled_mp4_changes_qualify() {
    assert!(batch_qualifies(&vec![mp4_event("MP4", ChangeKind::Any)]));
    assert!(batch_qualifies(&vec![mp4_event("txt", ChangeKind::Any), mp4_event("Mp4", ChangeKind::Any)]));
    assert!(!batch_qualifies(&vec![mp4_event("mp4", ChangeKind::AnyContinuous)]));
    assert!(!batch_qualifies(&vec![mp4_event("mp3", ChangeKind::Any)]));
    assert!(!batch_qualifies(&vec![WatchEvent { extension: None, kind: ChangeKind::Any }]));
    assert!(!batch_qualifies(&vec![]));
    let (_, action) = watch_step(
        WatchState::Listening,
        &WatchInput::Batch(vec![mp4_event("jpg", ChangeKind::Any)]),
    );
    assert_eq!(action, WatchAction::Wait);
}

#[test]
fn watcher_lifecycle() {
    assert_eq!(
        watch_step(WatchState::Initializing, &WatchInput::Subscribed),
        (WatchState::Listening, WatchAction::Wait)
    );
    assert_eq!(
        watch_step(WatchState::Initializing, &WatchInput::SetupFailed),
        (WatchState::Stopped, WatchAction::Stop)
    );
    assert_eq!(
        watch_step(WatchState::Listening, &WatchInput::BatchFailed),
        (WatchState::Listening, WatchAction::Wait)
    );
    assert_eq!(
        watch_step(WatchState::Listening, &WatchInput::Cancel),
        (WatchState::Stopped, WatchAction::Stop)
    );
    assert_eq!(
        watch_step(WatchState::Stopped, &WatchInput::Subscribed),
        (WatchState::Stopped, WatchAction::Stop)
    );
}

#[test]
fn compress_presets() {
    let base = |preset: &str, crf: &str| -> Vec<String> {
        ["-y", "-i", "in.mp4", "-c:v", "libx264", "-preset", preset, "-crf", crf, "-c:a", "aac"]
            .iter()
            .map(|s| s.to_string())
            .collect()
    };
    let mut high = base("medium", "22");
    high.push("out.mp4".to_string());
    assert_eq!(compress_clip("in.mp4", "out.mp4", "high", None), high);

    let mut low = base("fast", "34");
    low.extend(["-vf".to_string(), "scale='min(1280,iw)':-2".to_string(), "out.mp4".to_string()]);
    assert_eq!(compress_clip("in.mp4", "out.mp4", "low", None), low);

    let mut medium = base("fast", "28");
    medium.extend(["-vf".to_string(), "scale='min(1920,iw)':-2".to_string(), "out.mp4".to_string()]);
    assert_eq!(compress_clip("in.mp4", "out.mp4", "medium", None), medium);

    let mut capped = base("fast", "28");
    capped.extend(["-vf".to_string(), "scale='min(640,iw)':-2".to_string(), "out.mp4".to_string()]);
    assert_eq!(compress_clip("in.mp4", "out.mp4", "whatever", Some(640)), capped);
}

#[test]
fn names_come_in_order() {
    let mut db = ready();
    db.create_tag("t1", "beta", "#000").unwrap();
    db.create_tag("t2", "alpha", "#000").unwrap();
    db.create_tag("t3", "Gamma", "#000").unwrap();
    let names: Vec<String> = db.get_all_tags().unwrap().into_iter().map(|t| t.name).collect();
    assert_eq!(names, vec!["Gamma", "alpha", "beta"]);
    db.create_collection("c1", "zeta", "#000").unwrap();
    db.create_collection("c2", "eta", "#000").unwrap();
    let names: Vec<String> = db.get_all_collections().unwrap().into_iter().map(|c| c.name).collect();
    assert_eq!(names, vec!["eta", "zeta"]);
    db.create_smart_folder("f1", "b", "#000", "[]").unwrap();
    db.create_smart_folder("f2", "c", "#000", "[]").unwrap();
    db.update_smart_folder("f2", "a", "#111", "[1]").unwrap();
    let folders = db.get_all_smart_folders().unwrap();
    assert_eq!(folders[0].id, "f2");
    assert_eq!(folders[0].rules, "[1]");
    assert_eq!(folders[1].id, "f1");
}
