use boxy_catalog::model::Clip;
use boxy_catalog::store::DbState;

fn setup() -> DbState {
    let mut db = DbState::in_memory().unwrap();
    db.init().unwrap();
    db
}

fn make_clip(id: &str, path: &str) -> Clip {
    Clip {
        id: id.to_string(),
        filename: format!("{}.mp4", id),
        path: path.to_string(),
        dir_source: "test".to_string(),
        recorded_at: 1700000000,
        file_size: 1024,
        duration_ms: None,
        width: None,
        height: None,
        thumb_path: None,
        description: String::new(),
        tags: vec![],
        starred: false,
        created_at: 1700000000,
        updated_at: 1700000000,
    }
}

#[test]
fn test_init_creates_tables() {
    let mut db = setup();
    // should be able to call init again without error (idempotent migration)
    db.init().unwrap();
    let version = db.get_meta("schema_version").unwrap();
    assert_eq!(version, Some("2".to_string()));
}

#[test]
fn test_insert_and_get_clip() {
    let mut db = setup();
    let clip = make_clip("c1", "/test/clip1.mp4");
    db.insert_clip(&clip).unwrap();

    let clips = db.get_all_clips().unwrap();
    assert_eq!(clips.len(), 1);
    assert_eq!(clips[0].id, "c1");
    assert_eq!(clips[0].filename, "c1.mp4");
    assert_eq!(clips[0].path, "/test/clip1.mp4");
}

#[test]
fn test_insert_ignore_duplicate_path() {
    let mut db = setup();
    let clip = make_clip("c1", "/test/clip1.mp4");
    db.insert_clip(&clip).unwrap();
    // same path, different id - should be ignored
    let clip2 = make_clip("c2", "/test/clip1.mp4");
    db.insert_clip(&clip2).unwrap();

    let clips = db.get_all_clips().unwrap();
    assert_eq!(clips.len(), 1);
}

#[test]
fn test_clip_exists_by_path() {
    let mut db = setup();
    assert!(!db.clip_exists_by_path("/nope").unwrap());
    db.insert_clip(&make_clip("c1", "/test/clip1.mp4")).unwrap();
    assert!(db.clip_exists_by_path("/test/clip1.mp4").unwrap());
}

#[test]
fn test_update_clip_meta() {
    let mut db = setup();
    db.insert_clip(&make_clip("c1", "/test/clip1.mp4")).unwrap();
    db.update_clip_meta("c1", (10.5f64 * 1000.0).round() as u64, 1920, 1080).unwrap();

    let clips = db.get_all_clips().unwrap();
    assert_eq!(clips[0].duration_ms.map(|ms| ms as f64 / 1000.0), Some(10.5));
    assert_eq!(clips[0].width, Some(1920));
    assert_eq!(clips[0].height, Some(1080));
}

#[test]
fn test_update_description() {
    let mut db = setup();
    db.insert_clip(&make_clip("c1", "/test/clip1.mp4")).unwrap();
    db.update_description("c1", "cool clip").unwrap();

    let clips = db.get_all_clips().unwrap();
    assert_eq!(clips[0].description, "cool clip");
}

#[test]
fn test_starred() {
    let mut db = setup();
    db.insert_clip(&make_clip("c1", "/test/clip1.mp4")).unwrap();

    let clips = db.get_all_clips().unwrap();
    assert!(!clips[0].starred);

    db.toggle_star("c1", true).unwrap();
    let clips = db.get_all_clips().unwrap();
    assert!(clips[0].starred);

    db.toggle_star("c1", false).unwrap();
    let clips = db.get_all_clips().unwrap();
    assert!(!clips[0].starred);
}

#[test]
fn test_tags_crud() {
    let mut db = setup();
    let tag = db.create_tag("t1", "funny", "#ff0000").unwrap();
    assert_eq!(tag.name, "funny");

    let tags = db.get_all_tags().unwrap();
    assert_eq!(tags.len(), 1);
    assert_eq!(tags[0].clip_count, Some(0));

    db.delete_tag("t1").unwrap();
    let tags = db.get_all_tags().unwrap();
    assert!(tags.is_empty());
}

#[test]
fn test_clip_tags() {
    let mut db = setup();
    db.insert_clip(&make_clip("c1", "/test/clip1.mp4")).unwrap();
    db.create_tag("t1", "funny", "#ff0000").unwrap();

    db.add_clip_tag("c1", "t1").unwrap();
    let clips = db.get_all_clips().unwrap();
    assert_eq!(clips[0].tags, vec!["t1"]);

    // tag clip count
    let tags = db.get_all_tags().unwrap();
    assert_eq!(tags[0].clip_count, Some(1));

    db.remove_clip_tag("c1", "t1").unwrap();
    let clips = db.get_all_clips().unwrap();
    assert!(clips[0].tags.is_empty());
}

#[test]
fn test_delete_clips() {
    let mut db = setup();
    db.insert_clip(&make_clip("c1", "/test/clip1.mp4")).unwrap();
    db.insert_clip(&make_clip("c2", "/test/clip2.mp4")).unwrap();

    db.delete_clips(&["c1".to_string()]).unwrap();
    let clips = db.get_all_clips().unwrap();
    assert_eq!(clips.len(), 1);
    assert_eq!(clips[0].id, "c2");
}

#[test]
fn test_bulk_add_tag() {
    let mut db = setup();
    db.insert_clip(&make_clip("c1", "/test/clip1.mp4")).unwrap();
    db.insert_clip(&make_clip("c2", "/test/clip2.mp4")).unwrap();
    db.create_tag("t1", "action", "#0000ff").unwrap();

    db.bulk_add_tag(&["c1".to_string(), "c2".to_string()], "t1").unwrap();

    let clips = db.get_all_clips().unwrap();
    for clip in &clips {
        assert!(clip.tags.contains(&"t1".to_string()));
    }
}

#[test]
fn test_bulk_remove_tag() {
    let mut db = setup();
    db.insert_clip(&make_clip("c1", "/test/clip1.mp4")).unwrap();
    db.insert_clip(&make_clip("c2", "/test/clip2.mp4")).unwrap();
    db.create_tag("t1", "action", "#0000ff").unwrap();
    db.bulk_add_tag(&["c1".to_string(), "c2".to_string()], "t1").unwrap();

    db.bulk_remove_tag(&["c1".to_string()], "t1").unwrap();

    let clips = db.get_all_clips().unwrap();
    let c1 = clips.iter().find(|c| c.id == "c1").unwrap();
    let c2 = clips.iter().find(|c| c.id == "c2").unwrap();
    assert!(c1.tags.is_empty());
    assert!(c2.tags.contains(&"t1".to_string()));
}

#[test]
fn test_bulk_star() {
    let mut db = setup();
    db.insert_clip(&make_clip("c1", "/test/clip1.mp4")).unwrap();
    db.insert_clip(&make_clip("c2", "/test/clip2.mp4")).unwrap();

    db.bulk_star(&["c1".to_string(), "c2".to_string()], true).unwrap();
    let clips = db.get_all_clips().unwrap();
    assert!(clips.iter().all(|c| c.starred));

    db.bulk_star(&["c1".to_string()], false).unwrap();
    let c1 = db.get_all_clips().unwrap().into_iter().find(|c| c.id == "c1").unwrap();
    assert!(!c1.starred);
}

#[test]
fn test_collections_crud() {
    let mut db = setup();
    let col = db.create_collection("col1", "Highlights", "#ff0000").unwrap();
    assert_eq!(col.name, "Highlights");
    assert_eq!(col.clip_count, 0);

    let cols = db.get_all_collections().unwrap();
    assert_eq!(cols.len(), 1);

    db.delete_collection("col1").unwrap();
    assert!(db.get_all_collections().unwrap().is_empty());
}

#[test]
fn test_collection_clips() {
    let mut db = setup();
    db.insert_clip(&make_clip("c1", "/test/clip1.mp4")).unwrap();
    db.insert_clip(&make_clip("c2", "/test/clip2.mp4")).unwrap();
    db.create_collection("col1", "Best", "#00ff00").unwrap();

    db.add_clips_to_collection("col1", &["c1".to_string(), "c2".to_string()]).unwrap();
    let ids = db.get_collection_clip_ids("col1").unwrap();
    assert_eq!(ids.len(), 2);

    // clip count
    let cols = db.get_all_collections().unwrap();
    assert_eq!(cols[0].clip_count, 2);

    db.remove_clips_from_collection("col1", &["c1".to_string()]).unwrap();
    let ids = db.get_collection_clip_ids("col1").unwrap();
    assert_eq!(ids.len(), 1);
    assert_eq!(ids[0], "c2");
}

#[test]
fn test_smart_folders_crud() {
    let mut db = setup();
    let sf = db
        .create_smart_folder("sf1", "Big Files", "#06b6d4", r#"[{"field":"fileSize","op":"gt","value":"50000000"}]"#)
        .unwrap();
    assert_eq!(sf.name, "Big Files");

    let folders = db.get_all_smart_folders().unwrap();
    assert_eq!(folders.len(), 1);

    db.update_smart_folder("sf1", "Huge Files", "#ff0000", r#"[{"field":"fileSize","op":"gt","value":"100000000"}]"#)
        .unwrap();
    let folders = db.get_all_smart_folders().unwrap();
    assert_eq!(folders[0].name, "Huge Files");

    db.delete_smart_folder("sf1").unwrap();
    assert!(db.get_all_smart_folders().unwrap().is_empty());
}

#[test]
fn test_waveform_cache() {
    let mut db = setup();
    db.insert_clip(&make_clip("c1", "/test/clip1.mp4")).unwrap();

    assert!(db.get_waveform("c1").unwrap().is_none());

    let samples: Vec<u8> = vec![0, 0, 128, 63]; // f32 1.0 in le bytes
    db.save_waveform("c1", &samples, 1).unwrap();

    let cached = db.get_waveform("c1").unwrap().unwrap();
    assert_eq!(cached, samples);

    // upsert overwrites
    let samples2: Vec<u8> = vec![0, 0, 0, 64]; // f32 2.0
    db.save_waveform("c1", &samples2, 1).unwrap();
    let cached = db.get_waveform("c1").unwrap().unwrap();
    assert_eq!(cached, samples2);
}

#[test]
fn test_app_meta() {
    let mut db = setup();
    assert_eq!(db.get_meta("foo").unwrap(), None);

    db.set_meta("foo", "bar").unwrap();
    assert_eq!(db.get_meta("foo").unwrap(), Some("bar".to_string()));

    db.set_meta("foo", "baz").unwrap();
    assert_eq!(db.get_meta("foo").unwrap(), Some("baz".to_string()));
}

#[test]
fn test_embeddings() {
    let mut db = setup();
    db.insert_clip(&make_clip("c1", "/test/clip1.mp4")).unwrap();

    let vec_data = vec![1u8, 2, 3, 4];
    db.upsert_embedding("c1", &vec_data).unwrap();

    let all = db.get_all_embeddings().unwrap();
    assert_eq!(all.len(), 1);
    assert_eq!(all[0].0, "c1");
    assert_eq!(all[0].1, vec_data);

    // upsert overwrites
    let vec2 = vec![5u8, 6, 7, 8];
    db.upsert_embedding("c1", &vec2).unwrap();
    let all = db.get_all_embeddings().unwrap();
    assert_eq!(all[0].1, vec2);
}

#[test]
fn test_cascade_delete_clip_removes_tags_and_collections() {
    let mut db = setup();
    db.insert_clip(&make_clip("c1", "/test/clip1.mp4")).unwrap();
    db.create_tag("t1", "test", "#000").unwrap();
    db.add_clip_tag("c1", "t1").unwrap();
    db.create_collection("col1", "My Col", "#fff").unwrap();
    db.add_clips_to_collection("col1", &["c1".to_string()]).unwrap();

    // deleting the clip should cascade-remove clip_tags and collection_clips
    db.delete_clips(&["c1".to_string()]).unwrap();

    let tags = db.get_all_tags().unwrap();
    assert_eq!(tags[0].clip_count, Some(0));

    let col_clips = db.get_collection_clip_ids("col1").unwrap();
    assert!(col_clips.is_empty());
}

#[test]
fn test_update_clip_thumb() {
    let mut db = setup();
    db.insert_clip(&make_clip("c1", "/test/clip1.mp4")).unwrap();
    assert!(db.get_all_clips().unwrap()[0].thumb_path.is_none());

    db.update_clip_thumb("c1", "/thumbs/c1.jpg").unwrap();
    let clips = db.get_all_clips().unwrap();
    assert_eq!(clips[0].thumb_path, Some("/thumbs/c1.jpg".to_string()));
}
