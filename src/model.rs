//! The rows of the catalog and their mathematical models.
use vstd::prelude::*;

use crate::text::ascending;

verus! {

pub open spec fn strings_view(v: Seq<String>) -> Seq<Seq<char>> {
    v.map_values(|s: String| s@)
}

pub open spec fn opt_string_view(o: Option<String>) -> Option<Seq<char>> {
    match o {
        Some(s) => Some(s@),
        None => None,
    }
}

/// A recorded video file known to the catalog.
#[derive(Debug)]
pub struct Clip {
    pub id: String,
    pub filename: String,
    pub path: String,
    pub dir_source: String,
    pub recorded_at: i64,
    pub file_size: i64,
    pub duration_ms: Option<u64>,
    pub width: Option<i32>,
    pub height: Option<i32>,
    pub thumb_path: Option<String>,
    pub description: String,
    pub tags: Vec<String>,
    pub starred: bool,
    pub created_at: i64,
    pub updated_at: i64,
}

pub struct ClipModel {
    pub id: Seq<char>,
    pub filename: Seq<char>,
    pub path: Seq<char>,
    pub dir_source: Seq<char>,
    pub recorded_at: i64,
    pub file_size: i64,
    pub duration_ms: Option<u64>,
    pub width: Option<i32>,
    pub height: Option<i32>,
    pub thumb_path: Option<Seq<char>>,
    pub description: Seq<char>,
    pub tags: Seq<Seq<char>>,
    pub starred: bool,
    pub created_at: i64,
    pub updated_at: i64,
}

impl View for Clip {
    type V = ClipModel;

    open spec fn view(&self) -> ClipModel {
        ClipModel {
            id: self.id@,
            filename: self.filename@,
            path: self.path@,
            dir_source: self.dir_source@,
            recorded_at: self.recorded_at,
            file_size: self.file_size,
            duration_ms: self.duration_ms,
            width: self.width,
            height: self.height,
            thumb_path: opt_string_view(self.thumb_path),
            description: self.description@,
            tags: strings_view(self.tags@),
            starred: self.starred,
            created_at: self.created_at,
            updated_at: self.updated_at,
        }
    }
}

/// A label that clips can carry. `clip_count` is filled in when tags are read.
#[derive(Debug)]
pub struct Tag {
    pub id: String,
    pub name: String,
    pub color: String,
    pub created_at: i64,
    pub clip_count: Option<i64>,
}

pub struct TagModel {
    pub id: Seq<char>,
    pub name: Seq<char>,
    pub color: Seq<char>,
    pub created_at: i64,
    pub clip_count: Option<i64>,
}

impl View for Tag {
    type V = TagModel;

    open spec fn view(&self) -> TagModel {
        TagModel {
            id: self.id@,
            name: self.name@,
            color: self.color@,
            created_at: self.created_at,
            clip_count: self.clip_count,
        }
    }
}

/// A hand-made, ordered group of clips. `clip_count` is filled in when
/// collections are read.
#[derive(Debug)]
pub struct Collection {
    pub id: String,
    pub name: String,
    pub description: String,
    pub color: String,
    pub sort_order: i32,
    pub clip_count: i64,
    pub created_at: i64,
    pub updated_at: i64,
}

pub struct CollectionModel {
    pub id: Seq<char>,
    pub name: Seq<char>,
    pub description: Seq<char>,
    pub color: Seq<char>,
    pub sort_order: i32,
    pub clip_count: i64,
    pub created_at: i64,
    pub updated_at: i64,
}

impl View for Collection {
    type V = CollectionModel;

    open spec fn view(&self) -> CollectionModel {
        CollectionModel {
            id: self.id@,
            name: self.name@,
            description: self.description@,
            color: self.color@,
            sort_order: self.sort_order,
            clip_count: self.clip_count,
            created_at: self.created_at,
            updated_at: self.updated_at,
        }
    }
}

/// A saved query; its `rules` are stored as given and never read here.
#[derive(Debug)]
pub struct SmartFolder {
    pub id: String,
    pub name: String,
    pub color: String,
    pub rules: String,
    pub created_at: i64,
    pub updated_at: i64,
}

pub struct SmartFolderModel {
    pub id: Seq<char>,
    pub name: Seq<char>,
    pub color: Seq<char>,
    pub rules: Seq<char>,
    pub created_at: i64,
    pub updated_at: i64,
}

impl View for SmartFolder {
    type V = SmartFolderModel;

    open spec fn view(&self) -> SmartFolderModel {
        SmartFolderModel {
            id: self.id@,
            name: self.name@,
            color: self.color@,
            rules: self.rules@,
            created_at: self.created_at,
            updated_at: self.updated_at,
        }
    }
}

/// A clip's membership in a collection.
pub struct Member {
    pub collection_id: String,
    pub clip_id: String,
    pub sort_order: i32,
    pub added_at: i64,
}

pub struct MemberModel {
    pub collection_id: Seq<char>,
    pub clip_id: Seq<char>,
    pub sort_order: i32,
    pub added_at: i64,
}

impl View for Member {
    type V = MemberModel;

    open spec fn view(&self) -> MemberModel {
        MemberModel {
            collection_id: self.collection_id@,
            clip_id: self.clip_id@,
            sort_order: self.sort_order,
            added_at: self.added_at,
        }
    }
}

/// A cached product of media processing, one per clip: an embedding or a
/// waveform. `count` is the waveform's number of samples (0 for embeddings).
pub struct Artifact {
    pub clip_id: String,
    pub data: Vec<u8>,
    pub count: i32,
    pub updated_at: i64,
}

pub struct ArtifactModel {
    pub clip_id: Seq<char>,
    pub data: Seq<u8>,
    pub count: i32,
    pub updated_at: i64,
}

impl View for Artifact {
    type V = ArtifactModel;

    open spec fn view(&self) -> ArtifactModel {
        ArtifactModel {
            clip_id: self.clip_id@,
            data: self.data@,
            count: self.count,
            updated_at: self.updated_at,
        }
    }
}

/// An entry of the key-value table.
pub struct MetaEntry {
    pub key: String,
    pub value: String,
}

/// The parts of the schema that migrations create.
#[derive(Clone, Copy, Debug, PartialEq, Eq, Structural)]
pub enum SchemaItem {
    AppMeta,
    Clips,
    Tags,
    ClipTags,
    Embeddings,
    ClipsStarredColumn,
    Collections,
    CollectionClips,
    SmartFolders,
    Waveforms,
}

/// The whole catalog as values.
pub struct Catalog {
    pub clips: Seq<ClipModel>,
    pub tags: Seq<TagModel>,
    pub collections: Seq<CollectionModel>,
    pub members: Seq<MemberModel>,
    pub folders: Seq<SmartFolderModel>,
    pub embeddings: Seq<ArtifactModel>,
    pub waveforms: Seq<ArtifactModel>,
    pub meta: Seq<(Seq<char>, Seq<char>)>,
    pub schema: Seq<SchemaItem>,
}

pub open spec fn has_clip_id(clips: Seq<ClipModel>, id: Seq<char>) -> bool {
    exists|i: int| 0 <= i < clips.len() && #[trigger] clips[i].id == id
}

pub open spec fn has_clip_path(clips: Seq<ClipModel>, path: Seq<char>) -> bool {
    exists|i: int| 0 <= i < clips.len() && #[trigger] clips[i].path == path
}

pub open spec fn has_tag_id(tags: Seq<TagModel>, id: Seq<char>) -> bool {
    exists|i: int| 0 <= i < tags.len() && #[trigger] tags[i].id == id
}

pub open spec fn has_tag_name(tags: Seq<TagModel>, name: Seq<char>) -> bool {
    exists|i: int| 0 <= i < tags.len() && #[trigger] tags[i].name == name
}

pub open spec fn has_collection_id(cols: Seq<CollectionModel>, id: Seq<char>) -> bool {
    exists|i: int| 0 <= i < cols.len() && #[trigger] cols[i].id == id
}

pub open spec fn has_folder_id(folders: Seq<SmartFolderModel>, id: Seq<char>) -> bool {
    exists|i: int| 0 <= i < folders.len() && #[trigger] folders[i].id == id
}

pub open spec fn is_member(members: Seq<MemberModel>, col: Seq<char>, clip: Seq<char>) -> bool {
    exists|i: int|
        0 <= i < members.len() && #[trigger] members[i].collection_id == col && members[i].clip_id
            == clip
}

pub open spec fn has_artifact(rows: Seq<ArtifactModel>, clip: Seq<char>) -> bool {
    exists|i: int| 0 <= i < rows.len() && #[trigger] rows[i].clip_id == clip
}

pub open spec fn has_meta_key(meta: Seq<(Seq<char>, Seq<char>)>, key: Seq<char>) -> bool {
    exists|i: int| 0 <= i < meta.len() && #[trigger] meta[i].0 == key
}

/// Newest first: `recorded_at` never increases along the sequence.
pub open spec fn newest_first(clips: Seq<ClipModel>) -> bool {
    forall|i: int, j: int|
        0 <= i < j < clips.len() ==> #[trigger] clips[i].recorded_at >= #[trigger] clips[j].recorded_at
}

pub open spec fn tag_names(tags: Seq<TagModel>) -> Seq<Seq<char>> {
    tags.map_values(|t: TagModel| t.name)
}

pub open spec fn collection_names(cols: Seq<CollectionModel>) -> Seq<Seq<char>> {
    cols.map_values(|c: CollectionModel| c.name)
}

pub open spec fn folder_names(folders: Seq<SmartFolderModel>) -> Seq<Seq<char>> {
    folders.map_values(|f: SmartFolderModel| f.name)
}

pub open spec fn distinct_strings(s: Seq<Seq<char>>) -> bool {
    forall|i: int, j: int| 0 <= i < j < s.len() ==> #[trigger] s[i] != #[trigger] s[j]
}

impl Catalog {
    /// The relational invariants: unique keys, references that resolve,
    /// clips kept newest first, and tags, collections and smart folders kept
    /// in order of name.
    pub open spec fn inv(&self) -> bool {
        &&& newest_first(self.clips)
        &&& ascending(tag_names(self.tags))
        &&& ascending(collection_names(self.collections))
        &&& ascending(folder_names(self.folders))
        &&& forall|i: int, j: int|
            0 <= i < j < self.clips.len() ==> #[trigger] self.clips[i].id != #[trigger] self.clips[j].id
        &&& forall|i: int, j: int|
            0 <= i < j < self.clips.len() ==> #[trigger] self.clips[i].path
                != #[trigger] self.clips[j].path
        &&& forall|i: int|
            0 <= i < self.clips.len() ==> distinct_strings(#[trigger] self.clips[i].tags)
        &&& forall|i: int, k: int|
            0 <= i < self.clips.len() && 0 <= k < self.clips[i].tags.len() ==> has_tag_id(
                self.tags,
                #[trigger] self.clips[i].tags[k],
            )
        &&& forall|i: int, j: int|
            0 <= i < j < self.tags.len() ==> #[trigger] self.tags[i].id != #[trigger] self.tags[j].id
        &&& forall|i: int, j: int|
            0 <= i < j < self.tags.len() ==> #[trigger] self.tags[i].name
                != #[trigger] self.tags[j].name
        &&& forall|i: int, j: int|
            0 <= i < j < self.collections.len() ==> #[trigger] self.collections[i].id
                != #[trigger] self.collections[j].id
        &&& forall|i: int, j: int|
            0 <= i < j < self.members.len() ==> !(#[trigger] self.members[i].collection_id
                == #[trigger] self.members[j].collection_id && self.members[i].clip_id
                == self.members[j].clip_id)
        &&& forall|i: int|
            0 <= i < self.members.len() ==> has_collection_id(
                self.collections,
                #[trigger] self.members[i].collection_id,
            ) && has_clip_id(self.clips, self.members[i].clip_id)
        &&& forall|i: int, j: int|
            0 <= i < j < self.folders.len() ==> #[trigger] self.folders[i].id
                != #[trigger] self.folders[j].id
        &&& forall|i: int, j: int|
            0 <= i < j < self.embeddings.len() ==> #[trigger] self.embeddings[i].clip_id
                != #[trigger] self.embeddings[j].clip_id
        &&& forall|i: int|
            0 <= i < self.embeddings.len() ==> has_clip_id(
                self.clips,
                #[trigger] self.embeddings[i].clip_id,
            )
        &&& forall|i: int, j: int|
            0 <= i < j < self.waveforms.len() ==> #[trigger] self.waveforms[i].clip_id
                != #[trigger] self.waveforms[j].clip_id
        &&& forall|i: int|
            0 <= i < self.waveforms.len() ==> has_clip_id(
                self.clips,
                #[trigger] self.waveforms[i].clip_id,
            )
        &&& forall|i: int, j: int|
            0 <= i < j < self.meta.len() ==> #[trigger] self.meta[i].0 != #[trigger] self.meta[j].0
    }
}

} // verus!
