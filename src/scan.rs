//! The scan pass: new clip files found under the watch directories are added
//! to the catalog, and clips whose files are gone are removed from it.
//!
//! Walking the directories and asking whether a file exists is left to the
//! caller, who reports what it saw as `FoundFile` values and a list of
//! missing paths.
use vstd::prelude::*;

use crate::adapters::{
    default_video_dir, fresh_id, json_of_strings, json_strings, lower_of, lowercase, now_seconds,
    parse_string_list, write_string_list,
};
use crate::filename::{parse_timestamp, recorded_time};
use crate::model::{strings_view, Catalog, Clip, ClipModel};
use crate::store::{meta_set, meta_value, with_clip, without_clips, DbState};

verus! {

/// The shallowest depth below a watch directory that a scan looks at.
pub const SCAN_MIN_DEPTH: usize = 1;

/// The deepest level below a watch directory that a scan looks at: the
/// directory's own files and those of its immediate subdirectories.
pub const SCAN_MAX_DEPTH: usize = 2;

/// One entry met while walking a watch directory.
pub struct FoundFile {
    /// The full path, as text.
    pub path: String,
    /// The entry's own name.
    pub filename: String,
    /// The name of the directory that holds it, where it has one.
    pub parent_name: Option<String>,
    /// The file's length in bytes, where it could be read.
    pub size: Option<u64>,
    /// How far below the watch directory it lies: 1 for the directory's own entries.
    pub depth: usize,
    /// Whether it is a regular file.
    pub is_file: bool,
}

/// The label of the directory holding `f`, before lower-casing.
pub open spec fn parent_label(f: FoundFile) -> Seq<char> {
    match f.parent_name {
        Some(n) => n@,
        None => "unknown"@,
    }
}

/// The size that the catalog records: 0 where it could not be read.
pub open spec fn recorded_size(f: FoundFile) -> i64 {
    match f.size {
        Some(n) => if n <= i64::MAX as u64 {
            n as i64
        } else {
            i64::MAX
        },
        None => 0,
    }
}

/// Whether the scan takes `f` as a clip: a regular file at a scanned depth
/// whose name is a clip name denoting a real date and time.
pub open spec fn qualifies(f: FoundFile) -> bool {
    &&& f.is_file
    &&& SCAN_MIN_DEPTH <= f.depth <= SCAN_MAX_DEPTH
    &&& recorded_time(f.filename@) is Some
}

/// The clip that the scan inserts for a qualifying `f`.
pub open spec fn found_clip(f: FoundFile, id: Seq<char>, now: i64) -> ClipModel {
    ClipModel {
        id: id,
        filename: f.filename@,
        path: f.path@,
        dir_source: lower_of(parent_label(f)),
        recorded_at: recorded_time(f.filename@).unwrap() as i64,
        file_size: recorded_size(f),
        duration_ms: None,
        width: None,
        height: None,
        thumb_path: None,
        description: Seq::empty(),
        tags: Seq::empty(),
        starred: false,
        created_at: now,
        updated_at: now,
    }
}

/// The clips after inserting, in order, a clip for each qualifying found
/// entry; the entry at position `k` gets id `ids[k]`. Paths already in the
/// catalog, including those met earlier in the same pass, are passed over.
pub open spec fn ingested(clips: Seq<ClipModel>, found: Seq<FoundFile>, ids: Seq<Seq<char>>, now: i64) -> Seq<
    ClipModel,
>
    decreases found.len(),
{
    if found.len() == 0 {
        clips
    } else {
        let before = ingested(clips, found.drop_last(), ids, now);
        let f = found.last();
        if qualifies(f) {
            with_clip(before, found_clip(f, ids[found.len() - 1], now))
        } else {
            before
        }
    }
}

/// The ids of the clips whose path is listed as missing.
pub open spec fn orphan_ids(clips: Seq<ClipModel>, missing: Seq<Seq<char>>) -> Seq<Seq<char>> {
    clips.filter(|c: ClipModel| missing.contains(c.path)).map_values(|c: ClipModel| c.id)
}

/// The catalog after a scan pass that found `found` and could not find the
/// files at the paths in `missing`.
pub open spec fn scanned(
    c: Catalog,
    found: Seq<FoundFile>,
    missing: Seq<Seq<char>>,
    ids: Seq<Seq<char>>,
    now: i64,
) -> Catalog {
    let clips = ingested(c.clips, found, ids, now);
    without_clips(Catalog { clips: clips, ..c }, orphan_ids(clips, missing))
}

fn clip_for(f: &FoundFile, id: String, now: i64) -> (r: Option<Clip>)
    ensures
        match r {
            Some(c) => qualifies(*f) && c@ == found_clip(*f, id@, now),
            None => !qualifies(*f),
        },
{
    if !f.is_file || f.depth < SCAN_MIN_DEPTH || f.depth > SCAN_MAX_DEPTH {
        return None;
    }
    let recorded_at = match parse_timestamp(f.filename.as_str()) {
        Some(t) => t,
        None => {
            return None;
        },
    };
    let file_size: i64 = match f.size {
        Some(n) => if n <= i64::MAX as u64 {
            n as i64
        } else {
            i64::MAX
        },
        None => 0,
    };
    let dir_source = match &f.parent_name {
        Some(n) => lowercase(n.as_str()),
        None => lowercase("unknown"),
    };
    let c = Clip {
        id,
        filename: f.filename.clone(),
        path: f.path.clone(),
        dir_source,
        recorded_at,
        file_size,
        duration_ms: None,
        width: None,
        height: None,
        thumb_path: None,
        description: String::new(),
        tags: Vec::new(),
        starred: false,
        created_at: now,
        updated_at: now,
    };
    assert(c@.tags =~= Seq::<Seq<char>>::empty());
    Some(c)
}

/// One scan pass over what a walk of the watch directories found: each
/// qualifying entry whose path is new becomes a clip, the entry at position
/// `k` taking id `ids[k]`; then every clip whose path is listed in `missing`
/// is deleted, with what hangs on it. Returns all clips, newest first.
pub fn scan_found(
    db: &mut DbState,
    found: &Vec<FoundFile>,
    missing: &[String],
    ids: &Vec<String>,
    now: i64,
) -> (r: Result<Vec<Clip>, String>)
    requires
        old(db)@.inv(),
        ids@.len() == found@.len(),
    ensures
        final(db)@.inv(),
        final(db)@ == scanned(old(db)@, found@, strings_view(missing@), strings_view(ids@), now),
        r matches Ok(v) && v@.map_values(|c: Clip| c@) == final(db)@.clips,
{
    let ghost old_view = db@;
    let ghost sids = strings_view(ids@);
    let mut i: usize = 0;
    while i < found.len()
        invariant
            i <= found@.len(),
            ids@.len() == found@.len(),
            sids == strings_view(ids@),
            db@.inv(),
            db@ == (Catalog { clips: ingested(old_view.clips, found@.subrange(0, i as int), sids, now), ..old_view }),
        decreases found.len() - i,
    {
        proof {
            assert(found@.subrange(0, i + 1).drop_last() =~= found@.subrange(0, i as int));
            assert(found@.subrange(0, i + 1).last() == found@[i as int]);
        }
        match clip_for(&found[i], ids[i].clone(), now) {
            Some(c) => {
                let _ = db.insert_clip(&c);
            },
            None => {},
        }
        i = i + 1;
    }
    assert(found@.subrange(0, i as int) =~= found@);
    let orphans = orphans_of(db, missing);
    let _ = db.delete_clips(orphans.as_slice());
    db.get_all_clips()
}

fn orphans_of(db: &DbState, missing: &[String]) -> (r: Vec<String>)
    ensures
        strings_view(r@) == orphan_ids(db@.clips, strings_view(missing@)),
{
    let all = db.get_all_clips();
    let all = match all {
        Ok(v) => v,
        Err(_) => Vec::new(),
    };
    let ghost s = db@.clips;
    let ghost sm = strings_view(missing@);
    let mut r: Vec<String> = Vec::new();
    let mut i: usize = 0;
    while i < all.len()
        invariant
            i <= all@.len(),
            all@.map_values(|c: Clip| c@) == s,
            sm == strings_view(missing@),
            strings_view(r@) == orphan_ids(s.subrange(0, i as int), sm),
        decreases all.len() - i,
    {
        proof {
            crate::store::lemma_filter_step(s, i as int, |c: ClipModel| sm.contains(c.path));
            assert(s[i as int] == all@[i as int]@);
        }
        let ghost before = strings_view(r@);
        if crate::store::contains_string(missing, &all[i].path) {
            r.push(all[i].id.clone());
            assert(strings_view(r@) =~= before.push(s[i as int].id));
        }
        i = i + 1;
    }
    assert(s.subrange(0, i as int) =~= s);
    r
}

/// One scan pass, with fresh ids and the current time.
pub fn scan_dirs(db: &mut DbState, found: &Vec<FoundFile>, missing: &[String]) -> (r: Result<
    Vec<Clip>,
    String,
>)
    requires
        old(db)@.inv(),
    ensures
        final(db)@.inv(),
        exists|ids: Seq<Seq<char>>, now: i64|
            ids.len() == found@.len() && final(db)@ == #[trigger] scanned(
                old(db)@,
                found@,
                strings_view(missing@),
                ids,
                now,
            ),
        r matches Ok(v) && v@.map_values(|c: Clip| c@) == final(db)@.clips,
{
    let now = now_seconds();
    let mut ids: Vec<String> = Vec::new();
    let mut i: usize = 0;
    while i < found.len()
        invariant
            i <= found@.len(),
            ids@.len() == i,
        decreases found.len() - i,
    {
        ids.push(fresh_id());
        i = i + 1;
    }
    scan_found(db, found, missing, &ids, now)
}

/// The watch directories: the persisted list where it is a non-empty list,
/// else the default directory where there is one, else none.
pub open spec fn watch_dirs_from(persisted: Option<Seq<Seq<char>>>, default_dir: Option<Seq<char>>) -> Seq<
    Seq<char>,
> {
    match persisted {
        Some(l) if l.len() > 0 => l,
        _ => match default_dir {
            Some(d) => seq![d],
            None => Seq::empty(),
        },
    }
}

/// The metadata key under which the watch directories are stored, as a JSON array.
pub open spec fn watch_dirs_key() -> Seq<char> {
    "watch_dirs"@
}

/// The persisted list of watch directories, if the stored text is a JSON
/// array of strings.
pub open spec fn persisted_dirs(c: Catalog) -> Option<Seq<Seq<char>>> {
    match meta_value(c.meta, watch_dirs_key()) {
        Some(text) => json_strings(text),
        None => None,
    }
}

/// Whether a non-empty list of watch directories is persisted.
pub open spec fn has_persisted_dirs(c: Catalog) -> bool {
    persisted_dirs(c) is Some && persisted_dirs(c).unwrap().len() > 0
}

/// Chooses the watch directories from the persisted list and the platform default.
pub fn resolve_watch_dirs(persisted: Option<Vec<String>>, default_dir: Option<String>) -> (r: Vec<
    String,
>)
    ensures
        strings_view(r@) == watch_dirs_from(
            match persisted {
                Some(v) => Some(strings_view(v@)),
                None => None,
            },
            match default_dir {
                Some(d) => Some(d@),
                None => None,
            },
        ),
{
    match persisted {
        Some(v) => {
            if v.len() > 0 {
                return v;
            }
        },
        None => {},
    }
    match default_dir {
        Some(d) => {
            let r = vec![d];
            assert(strings_view(r@) =~= seq![r@[0]@]);
            r
        },
        None => {
            let r: Vec<String> = Vec::new();
            assert(strings_view(r@) =~= Seq::<Seq<char>>::empty());
            r
        },
    }
}

/// The active watch directories: the persisted list where it is a
/// non-empty JSON array of strings, else the platform's videos directory.
pub fn get_watch_dirs(db: &DbState) -> (r: Vec<String>)
    requires
        db@.inv(),
    ensures
        has_persisted_dirs(db@) ==> strings_view(r@) == persisted_dirs(db@).unwrap(),
        !has_persisted_dirs(db@) ==> r@.len() <= 1,
{
    let persisted = match db.get_meta("watch_dirs") {
        Ok(Some(text)) => parse_string_list(text.as_str()),
        _ => None,
    };
    let default_dir = default_video_dir();
    let r = resolve_watch_dirs(persisted, default_dir);
    assert(strings_view(r@).len() == r@.len());
    r
}

/// Persists the list of watch directories.
pub fn set_watch_dirs(db: &mut DbState, dirs: &Vec<String>) -> (r: Result<(), String>)
    requires
        old(db)@.inv(),
    ensures
        r is Ok,
        final(db)@.inv(),
        final(db)@ == (Catalog {
            meta: meta_set(old(db)@.meta, watch_dirs_key(), json_of_strings(strings_view(dirs@))),
            ..old(db)@
        }),
{
    let text = write_string_list(dirs.as_slice());
    db.set_meta("watch_dirs", text.as_str())
}

} // verus!
