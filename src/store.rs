//! The catalog store: clips, tags, collections, smart folders, cached
//! artifacts and key-value metadata, with the uniqueness and cascade rules
//! of a relational schema.
use vstd::prelude::*;

use vstd::seq_lib::group_filter_ensures;

use crate::adapters::{now_seconds, parse_i64};
use crate::text::{ascending, lemma_insert_ascending, lemma_name_pos, name_pos, text_less, text_lt};
use crate::schema::{created, decimal_i64, first_step, second_step, version_key};
use crate::model::{
    distinct_strings, has_clip_id, has_clip_path, has_tag_id, strings_view, Artifact, ArtifactModel,
    Catalog, Clip, ClipModel, MemberModel, newest_first, has_collection_id, has_tag_name, TagModel,
    CollectionModel, is_member, has_folder_id, has_artifact, has_meta_key, SmartFolderModel,
    tag_names, collection_names, folder_names,
    Collection, Member, MetaEntry, SchemaItem, SmartFolder, Tag,
};

verus! {

/// The row that `insert_clip` stores for `c`: probe results, thumbnail,
/// tags and the star are left unset.
pub open spec fn inserted_row(c: ClipModel) -> ClipModel {
    ClipModel {
        duration_ms: None,
        width: None,
        height: None,
        thumb_path: None,
        tags: Seq::empty(),
        starred: false,
        ..c
    }
}

/// Where a clip recorded at `t` goes among newest-first clips: after every
/// clip recorded at `t` or later.
pub open spec fn insert_pos(clips: Seq<ClipModel>, t: i64) -> int
    decreases clips.len(),
{
    if clips.len() == 0 {
        0
    } else if clips[0].recorded_at < t {
        0
    } else {
        1 + insert_pos(clips.drop_first(), t)
    }
}

/// The clips after inserting `c`, which is ignored where its path or id is
/// taken.
pub open spec fn with_clip(clips: Seq<ClipModel>, c: ClipModel) -> Seq<ClipModel> {
    if has_clip_path(clips, c.path) || has_clip_id(clips, c.id) {
        clips
    } else {
        clips.insert(insert_pos(clips, c.recorded_at), inserted_row(c))
    }
}

proof fn lemma_insert_pos(clips: Seq<ClipModel>, t: i64, p: int)
    requires
        0 <= p <= clips.len(),
        forall|k: int| 0 <= k < p ==> #[trigger] clips[k].recorded_at >= t,
        p == clips.len() || clips[p].recorded_at < t,
    ensures
        insert_pos(clips, t) == p,
    decreases clips.len(),
{
    if clips.len() > 0 && p > 0 {
        assert(clips[0].recorded_at >= t);
        let rest = clips.drop_first();
        assert forall|k: int| 0 <= k < p - 1 implies #[trigger] rest[k].recorded_at >= t by {
            assert(rest[k] == clips[k + 1]);
        }
        lemma_insert_pos(rest, t, p - 1);
    }
}

pub fn copy_strings(v: &Vec<String>) -> (r: Vec<String>)
    ensures
        r@ == v@,
{
    let mut r: Vec<String> = Vec::new();
    let mut i: usize = 0;
    while i < v.len()
        invariant
            i <= v@.len(),
            r@ == v@.subrange(0, i as int),
        decreases v.len() - i,
    {
        r.push(v[i].clone());
        i = i + 1;
        assert(r@ =~= v@.subrange(0, i as int));
    }
    assert(r@ =~= v@);
    r
}

pub fn copy_opt_string(o: &Option<String>) -> (r: Option<String>)
    ensures
        r == *o,
{
    match o {
        Some(s) => Some(s.clone()),
        None => None,
    }
}

impl Clip {
    /// A copy with the same fields.
    pub fn duplicate(&self) -> (r: Clip)
        ensures
            r@ == self@,
    {
        Clip {
            id: self.id.clone(),
            filename: self.filename.clone(),
            path: self.path.clone(),
            dir_source: self.dir_source.clone(),
            recorded_at: self.recorded_at,
            file_size: self.file_size,
            duration_ms: self.duration_ms,
            width: self.width,
            height: self.height,
            thumb_path: copy_opt_string(&self.thumb_path),
            description: self.description.clone(),
            tags: copy_strings(&self.tags),
            starred: self.starred,
            created_at: self.created_at,
            updated_at: self.updated_at,
        }
    }
}

/// The invariant survives a change to the clips alone that keeps them in
/// order and unique, keeps their tag links sound, and drops no clip id.
proof fn lemma_inv_clips(a: Catalog, b: Catalog)
    requires
        a.inv(),
        b == (Catalog { clips: b.clips, ..a }),
        newest_first(b.clips),
        forall|i: int, j: int| 0 <= i < j < b.clips.len() ==> #[trigger] b.clips[i].id != #[trigger] b.clips[j].id,
        forall|i: int, j: int| 0 <= i < j < b.clips.len() ==> #[trigger] b.clips[i].path != #[trigger] b.clips[j].path,
        forall|i: int| 0 <= i < b.clips.len() ==> distinct_strings(#[trigger] b.clips[i].tags),
        forall|i: int, k: int|
            0 <= i < b.clips.len() && 0 <= k < b.clips[i].tags.len() ==> has_tag_id(a.tags, #[trigger] b.clips[i].tags[k]),
        forall|id: Seq<char>| has_clip_id(a.clips, id) ==> has_clip_id(b.clips, id),
    ensures
        b.inv(),
{
    assert(b.tags == a.tags && b.collections == a.collections && b.members == a.members && b.folders
        == a.folders && b.embeddings == a.embeddings && b.waveforms == a.waveforms && b.meta == a.meta);
    assert forall|i: int| 0 <= i < b.members.len() implies has_clip_id(b.clips, #[trigger] b.members[i].clip_id) by {
        assert(has_collection_id(a.collections, a.members[i].collection_id));
        assert(has_clip_id(a.clips, a.members[i].clip_id));
    }
    assert forall|i: int| 0 <= i < b.embeddings.len() implies has_clip_id(b.clips, #[trigger] b.embeddings[i].clip_id) by {
        assert(has_clip_id(a.clips, a.embeddings[i].clip_id));
    }
    assert forall|i: int| 0 <= i < b.waveforms.len() implies has_clip_id(b.clips, #[trigger] b.waveforms[i].clip_id) by {
        assert(has_clip_id(a.clips, a.waveforms[i].clip_id));
    }
}

/// The catalog. All reads and writes go through it; it keeps `Catalog::inv`.
pub struct DbState {
    clips: Vec<Clip>,
    tags: Vec<Tag>,
    collections: Vec<Collection>,
    members: Vec<Member>,
    folders: Vec<SmartFolder>,
    embeddings: Vec<Artifact>,
    waveforms: Vec<Artifact>,
    meta: Vec<MetaEntry>,
    schema: Vec<SchemaItem>,
}

impl View for DbState {
    type V = Catalog;

    closed spec fn view(&self) -> Catalog {
        Catalog {
            clips: self.clips@.map_values(|c: Clip| c@),
            tags: self.tags@.map_values(|t: Tag| t@),
            collections: self.collections@.map_values(|c: Collection| c@),
            members: self.members@.map_values(|m: Member| m@),
            folders: self.folders@.map_values(|f: SmartFolder| f@),
            embeddings: self.embeddings@.map_values(|a: Artifact| a@),
            waveforms: self.waveforms@.map_values(|a: Artifact| a@),
            meta: self.meta@.map_values(|e: MetaEntry| (e.key@, e.value@)),
            schema: self.schema@,
        }
    }
}

pub open spec fn empty_catalog() -> Catalog {
    Catalog {
        clips: Seq::empty(),
        tags: Seq::empty(),
        collections: Seq::empty(),
        members: Seq::empty(),
        folders: Seq::empty(),
        embeddings: Seq::empty(),
        waveforms: Seq::empty(),
        meta: Seq::empty(),
        schema: Seq::empty(),
    }
}

impl DbState {
    /// An empty catalog, with no schema yet: `init` creates it.
    pub fn new() -> (r: DbState)
        ensures
            r@ == empty_catalog(),
            r@.inv(),
    {
        let r = DbState {
            clips: Vec::new(),
            tags: Vec::new(),
            collections: Vec::new(),
            members: Vec::new(),
            folders: Vec::new(),
            embeddings: Vec::new(),
            waveforms: Vec::new(),
            meta: Vec::new(),
            schema: Vec::new(),
        };
        assert(r@.clips =~= Seq::<ClipModel>::empty());
        assert(r@.tags =~= empty_catalog().tags);
        assert(r@.collections =~= empty_catalog().collections);
        assert(r@.members =~= empty_catalog().members);
        assert(r@.folders =~= empty_catalog().folders);
        assert(r@.embeddings =~= empty_catalog().embeddings);
        assert(r@.waveforms =~= empty_catalog().waveforms);
        assert(r@.meta =~= empty_catalog().meta);
        assert(r@.schema =~= empty_catalog().schema);
        r
    }

    /// An empty catalog held in memory only.
    pub fn in_memory() -> (r: Result<DbState, String>)
        ensures
            r matches Ok(db) && db@ == empty_catalog() && db@.inv(),
    {
        Ok(DbState::new())
    }

    fn find_clip_by_id(&self, id: &String) -> (r: Option<usize>)
        ensures
            match r {
                Some(i) => i < self@.clips.len() && self@.clips[i as int].id == id@,
                None => !has_clip_id(self@.clips, id@),
            },
    {
        let mut i: usize = 0;
        while i < self.clips.len()
            invariant
                i <= self.clips@.len(),
                forall|k: int| 0 <= k < i ==> #[trigger] self.clips@[k].id@ != id@,
            decreases self.clips.len() - i,
        {
            if self.clips[i].id == *id {
                return Some(i);
            }
            i = i + 1;
        }
        None
    }

    fn find_clip_by_path(&self, path: &String) -> (r: Option<usize>)
        ensures
            match r {
                Some(i) => i < self@.clips.len() && self@.clips[i as int].path == path@,
                None => !has_clip_path(self@.clips, path@),
            },
    {
        let mut i: usize = 0;
        while i < self.clips.len()
            invariant
                i <= self.clips@.len(),
                forall|k: int| 0 <= k < i ==> #[trigger] self.clips@[k].path@ != path@,
            decreases self.clips.len() - i,
        {
            if self.clips[i].path == *path {
                return Some(i);
            }
            i = i + 1;
        }
        None
    }

    /// Inserts `clip` unless a clip with its path or its id is already
    /// stored; then nothing changes and the call still succeeds.
    pub fn insert_clip(&mut self, clip: &Clip) -> (r: Result<(), String>)
        requires
            old(self)@.inv(),
        ensures
            r is Ok,
            final(self)@.inv(),
            final(self)@ == (Catalog { clips: with_clip(old(self)@.clips, clip@), ..old(self)@ }),
    {
        if self.find_clip_by_path(&clip.path).is_some() || self.find_clip_by_id(&clip.id).is_some() {
            return Ok(());
        }
        let row = Clip {
            id: clip.id.clone(),
            filename: clip.filename.clone(),
            path: clip.path.clone(),
            dir_source: clip.dir_source.clone(),
            recorded_at: clip.recorded_at,
            file_size: clip.file_size,
            duration_ms: None,
            width: None,
            height: None,
            thumb_path: None,
            description: clip.description.clone(),
            tags: Vec::new(),
            starred: false,
            created_at: clip.created_at,
            updated_at: clip.updated_at,
        };
        assert(row@ == inserted_row(clip@)) by {
            assert(row@.tags =~= Seq::empty());
        }
        let t = clip.recorded_at;
        let mut p: usize = 0;
        while p < self.clips.len() && self.clips[p].recorded_at >= t
            invariant
                p <= self.clips@.len(),
                forall|k: int| 0 <= k < p ==> #[trigger] self.clips@[k].recorded_at >= t,
            decreases self.clips.len() - p,
        {
            p = p + 1;
        }
        let ghost old_clips = self@.clips;
        proof {
            lemma_insert_pos(old_clips, t, p as int);
        }
        let ghost before = self@;
        self.clips.insert(p, row);
        proof {
            assert(self@ == (Catalog { clips: self@.clips, ..before }));
            assert(self@.clips =~= old_clips.insert(p as int, inserted_row(clip@)));
            let c = self@.clips;
            assert forall|i: int, j: int| 0 <= i < j < c.len() implies #[trigger] c[i].recorded_at
                >= #[trigger] c[j].recorded_at by {
                if i < p && j > p {
                    assert(old_clips[i].recorded_at >= t);
                    assert(c[j] == old_clips[j - 1]);
                }
                if i < p && j < p {
                    assert(c[i] == old_clips[i] && c[j] == old_clips[j]);
                }
                if i == p && j > p {
                    assert(c[j] == old_clips[j - 1]);
                    assert(old_clips[p as int].recorded_at < t);
                    assert(old_clips[p as int].recorded_at >= old_clips[j - 1].recorded_at);
                }
                if i > p {
                    assert(c[i] == old_clips[i - 1] && c[j] == old_clips[j - 1]);
                }
            }
            assert forall|i: int, j: int| 0 <= i < j < c.len() implies #[trigger] c[i].id
                != #[trigger] c[j].id && c[i].path != c[j].path by {
                if i != p as int && j != p as int {
                    let oi = if i < p { i } else { i - 1 };
                    let oj = if j < p { j } else { j - 1 };
                    assert(c[i] == old_clips[oi] && c[j] == old_clips[oj]);
                } else if i == p as int {
                    let oj = j - 1;
                    assert(c[j] == old_clips[oj]);
                } else {
                    let oi = if i < p { i } else { i - 1 };
                    assert(c[i] == old_clips[oi]);
                }
            }
            assert forall|i: int| 0 <= i < c.len() implies distinct_strings(#[trigger] c[i].tags)
                by {
                if i < p {
                    assert(c[i] == old_clips[i]);
                } else if i > p {
                    assert(c[i] == old_clips[i - 1]);
                }
            }
            assert forall|i: int, k: int| 0 <= i < c.len() && 0 <= k < c[i].tags.len() implies has_tag_id(
                before.tags,
                #[trigger] c[i].tags[k],
            ) by {
                if i < p {
                    assert(c[i] == old_clips[i]);
                    assert(has_tag_id(before.tags, old_clips[i].tags[k]));
                } else if i > p {
                    assert(c[i] == old_clips[i - 1]);
                    assert(has_tag_id(before.tags, old_clips[i - 1].tags[k]));
                }
            }
            assert forall|id: Seq<char>| has_clip_id(old_clips, id) implies has_clip_id(c, id) by {
                let k = choose|k: int| 0 <= k < old_clips.len() && #[trigger] old_clips[k].id == id;
                if k < p {
                    assert(c[k] == old_clips[k]);
                } else {
                    assert(c[k + 1] == old_clips[k]);
                }
            }
            lemma_inv_clips(before, self@);
        }
        Ok(())
    }

    /// Whether a clip with this path is stored.
    pub fn clip_exists_by_path(&self, path: &str) -> (r: Result<bool, String>)
        ensures
            r == Ok::<bool, String>(has_clip_path(self@.clips, path@)),
    {
        let p = path.to_owned();
        Ok(self.find_clip_by_path(&p).is_some())
    }

    /// Every clip, newest first, each with the ids of its tags.
    pub fn get_all_clips(&self) -> (r: Result<Vec<Clip>, String>)
        ensures
            r matches Ok(v) && v@.map_values(|c: Clip| c@) == self@.clips,
    {
        let mut out: Vec<Clip> = Vec::new();
        let mut i: usize = 0;
        while i < self.clips.len()
            invariant
                i <= self.clips@.len(),
                forall|k: int| 0 <= k < i ==> #[trigger] out@[k]@ == self.clips@[k]@,
                out@.len() == i,
            decreases self.clips.len() - i,
        {
            let d = self.clips[i].duplicate();
            out.push(d);
            i = i + 1;
        }
        assert(out@.map_values(|c: Clip| c@) =~= self@.clips);
        Ok(out)
    }
}

/// `tags` without `id`.
pub open spec fn without(tags: Seq<Seq<char>>, id: Seq<char>) -> Seq<Seq<char>> {
    tags.filter(|t: Seq<char>| t != id)
}

/// Clips whose id is not listed.
pub open spec fn clips_not_in(clips: Seq<ClipModel>, ids: Seq<Seq<char>>) -> Seq<ClipModel> {
    clips.filter(|c: ClipModel| !ids.contains(c.id))
}

/// Memberships whose clip is not listed.
pub open spec fn members_not_in(members: Seq<MemberModel>, ids: Seq<Seq<char>>) -> Seq<MemberModel> {
    members.filter(|m: MemberModel| !ids.contains(m.clip_id))
}

/// Cached artifacts whose clip is not listed.
pub open spec fn artifacts_not_in(rows: Seq<ArtifactModel>, ids: Seq<Seq<char>>) -> Seq<ArtifactModel> {
    rows.filter(|a: ArtifactModel| !ids.contains(a.clip_id))
}

/// The number of clips that carry tag `id`.
pub open spec fn tag_use(clips: Seq<ClipModel>, id: Seq<char>) -> int {
    clips.filter(|c: ClipModel| c.tags.contains(id)).len() as int
}

/// A count as the store reports it: an `i64`, saturated.
pub open spec fn count_i64(n: int) -> i64 {
    if n > i64::MAX {
        i64::MAX
    } else {
        n as i64
    }
}

pub fn remove_string(v: &Vec<String>, s: &String) -> (r: Vec<String>)
    ensures
        strings_view(r@) == without(strings_view(v@), s@),
{
    let mut r: Vec<String> = Vec::new();
    let mut i: usize = 0;
    while i < v.len()
        invariant
            i <= v@.len(),
            strings_view(r@) == without(strings_view(v@.subrange(0, i as int)), s@),
        decreases v.len() - i,
    {
        let ghost pre = strings_view(v@.subrange(0, i as int));
        proof {
            assert(strings_view(v@.subrange(0, i + 1)) =~= pre.push(v@[i as int]@));
            pre.lemma_filter_push(v@[i as int]@, |t: Seq<char>| t != s@);
        }
        if v[i] != *s {
            let ghost before = r@;
            r.push(v[i].clone());
            assert(strings_view(r@) =~= strings_view(before).push(v@[i as int]@));
        }
        i = i + 1;
    }
    assert(v@.subrange(0, i as int) =~= v@);
    r
}

proof fn lemma_filter_distinct(s: Seq<Seq<char>>, p: spec_fn(Seq<char>) -> bool)
    requires
        distinct_strings(s),
    ensures
        distinct_strings(s.filter(p)),
        forall|x: Seq<char>| s.filter(p).contains(x) <==> s.contains(x) && p(x),
    decreases s.len(),
{
    reveal(Seq::filter);
    broadcast use Seq::lemma_filter_push;
    if s.len() > 0 {
        let init = s.drop_last();
        assert forall|i: int, j: int| 0 <= i < j < init.len() implies #[trigger] init[i]
            != #[trigger] init[j] by {
            assert(init[i] == s[i] && init[j] == s[j]);
        }
        lemma_filter_distinct(init, p);
        assert(s =~= init.push(s.last()));
        let f = init.filter(p);
        if p(s.last()) {
            assert(!init.contains(s.last())) by {
                if init.contains(s.last()) {
                    let k = choose|k: int| 0 <= k < init.len() && init[k] == s.last();
                    assert(s[k] == s[s.len() - 1]);
                }
            }
            assert(s.filter(p) == f.push(s.last()));
            assert forall|i: int, j: int| 0 <= i < j < f.push(s.last()).len() implies #[trigger] f.push(
                s.last(),
            )[i] != #[trigger] f.push(s.last())[j] by {
                if j == f.len() {
                    assert(f.contains(f[i]));
                }
            }
            assert forall|x: Seq<char>| s.filter(p).contains(x) <==> s.contains(x) && p(x) by {
                if x == s.last() {
                    assert(f.push(s.last())[f.len() as int] == x);
                    assert(s[s.len() - 1] == x);
                }
                if s.contains(x) && x != s.last() {
                    let k = choose|k: int| 0 <= k < s.len() && s[k] == x;
                    assert(init[k] == x);
                    if p(x) {
                        assert(f.contains(x));
                        let m = choose|m: int| 0 <= m < f.len() && f[m] == x;
                        assert(f.push(s.last())[m] == x);
                    }
                }
                if f.push(s.last()).contains(x) && x != s.last() {
                    let k = choose|k: int| 0 <= k < f.len() + 1 && f.push(s.last())[k] == x;
                    assert(f[k] == x);
                    assert(f.contains(x));
                    assert(init.contains(x));
                    let m = choose|m: int| 0 <= m < init.len() && init[m] == x;
                    assert(s[m] == x);
                }
            }
        } else {
            assert(s.filter(p) == f);
            assert forall|x: Seq<char>| s.filter(p).contains(x) <==> s.contains(x) && p(x) by {
                if s.contains(x) && x != s.last() {
                    let k = choose|k: int| 0 <= k < s.len() && s[k] == x;
                    assert(init[k] == x);
                }
                if f.contains(x) {
                    let k = choose|k: int| 0 <= k < f.len() && f[k] == x;
                    assert(init.contains(x));
                    let m = choose|m: int| 0 <= m < init.len() && init[m] == x;
                    assert(s[m] == x);
                }
            }
        }
    }
}

impl DbState {
    /// Puts `c` in place of the clip at `i`, which keeps its id, path and time.
    fn replace_clip(&mut self, i: usize, c: Clip)
        requires
            old(self)@.inv(),
            i < old(self)@.clips.len(),
            c@.id == old(self)@.clips[i as int].id,
            c@.path == old(self)@.clips[i as int].path,
            c@.recorded_at == old(self)@.clips[i as int].recorded_at,
            c@.tags == old(self)@.clips[i as int].tags || (distinct_strings(c@.tags) && forall|k: int|
                0 <= k < c@.tags.len() ==> has_tag_id(old(self)@.tags, #[trigger] c@.tags[k])),
        ensures
            final(self)@ == (Catalog { clips: old(self)@.clips.update(i as int, c@), ..old(self)@ }),
            final(self)@.inv(),
    {
        let ghost old_clips = self@.clips;
        proof {
            assert(distinct_strings(old_clips[i as int].tags));
        }
        let ghost before = self@;
        self.clips.set(i, c);
        proof {
            assert(self@ == (Catalog { clips: self@.clips, ..before }));
            let n = self@.clips;
            assert(n =~= old_clips.update(i as int, c@));
            assert forall|id: Seq<char>| has_clip_id(old_clips, id) implies has_clip_id(n, id) by {
                let k = choose|k: int| 0 <= k < old_clips.len() && #[trigger] old_clips[k].id == id;
                assert(n[k].id == id);
            }
            assert forall|a: int, b: int| 0 <= a < b < n.len() implies #[trigger] n[a].recorded_at
                >= #[trigger] n[b].recorded_at by {
                assert(old_clips[a].recorded_at >= old_clips[b].recorded_at);
            }
            assert forall|a: int, b: int| 0 <= a < b < n.len() implies #[trigger] n[a].id
                != #[trigger] n[b].id by {
                assert(old_clips[a].id != old_clips[b].id);
            }
            assert forall|a: int, b: int| 0 <= a < b < n.len() implies #[trigger] n[a].path
                != #[trigger] n[b].path by {
                assert(old_clips[a].path != old_clips[b].path);
            }
            assert forall|a: int| 0 <= a < n.len() implies distinct_strings(#[trigger] n[a].tags) by {
                if a != i {
                    assert(n[a] == old_clips[a]);
                }
            }
            assert forall|a: int, k: int| 0 <= a < n.len() && 0 <= k < n[a].tags.len() implies has_tag_id(
                before.tags,
                #[trigger] n[a].tags[k],
            ) by {
                if a != i || c@.tags == old_clips[i as int].tags {
                    assert(n[a].tags == old_clips[a].tags);
                    assert(has_tag_id(before.tags, old_clips[a].tags[k]));
                }
            }
            lemma_inv_clips(before, self@);
        }
    }
}

/// The position in `s` of the `i`-th element that `p` keeps.
pub open spec fn kept_index<A>(s: Seq<A>, p: spec_fn(A) -> bool, i: int) -> int
    decreases s.len(),
{
    if s.len() == 0 {
        0
    } else if p(s.last()) && i == s.drop_last().filter(p).len() {
        s.len() - 1
    } else {
        kept_index(s.drop_last(), p, i)
    }
}

/// A filtered sequence is a subsequence: its elements come from increasing
/// positions of the sequence it was taken from.
proof fn lemma_filter_positions<A>(s: Seq<A>, p: spec_fn(A) -> bool)
    ensures
        forall|i: int|
            0 <= i < s.filter(p).len() ==> 0 <= #[trigger] kept_index(s, p, i) < s.len() && s.filter(
                p,
            )[i] == s[kept_index(s, p, i)],
        forall|i: int, j: int|
            0 <= i < j < s.filter(p).len() ==> #[trigger] kept_index(s, p, i) < #[trigger] kept_index(
                s,
                p,
                j,
            ),
    decreases s.len(),
{
    reveal(Seq::filter);
    if s.len() > 0 {
        let init = s.drop_last();
        let fi = init.filter(p);
        let f = s.filter(p);
        lemma_filter_positions(init, p);
        assert(f == if p(s.last()) {
            fi.push(s.last())
        } else {
            fi
        });
        assert forall|i: int| 0 <= i < f.len() implies 0 <= #[trigger] kept_index(s, p, i) < s.len()
            && f[i] == s[kept_index(s, p, i)] by {
            if !(p(s.last()) && i == fi.len()) {
                assert(kept_index(s, p, i) == kept_index(init, p, i));
                assert(f[i] == fi[i]);
                assert(init[kept_index(init, p, i)] == s[kept_index(init, p, i)]);
            }
        }
        assert forall|i: int, j: int| 0 <= i < j < f.len() implies #[trigger] kept_index(s, p, i)
            < #[trigger] kept_index(s, p, j) by {
            assert(kept_index(s, p, i) == kept_index(init, p, i));
            if !(p(s.last()) && j == fi.len()) {
                assert(kept_index(s, p, j) == kept_index(init, p, j));
            } else {
                assert(kept_index(init, p, i) < init.len());
            }
        }
    }
}

/// Dropping rows keeps the rest in order of name.
proof fn lemma_filter_ascending<A>(s: Seq<A>, p: spec_fn(A) -> bool, name: spec_fn(A) -> Seq<char>)
    requires
        ascending(s.map_values(name)),
    ensures
        ascending(s.filter(p).map_values(name)),
{
    lemma_filter_positions(s, p);
    let f = s.filter(p);
    let fnames = f.map_values(name);
    let names = s.map_values(name);
    assert forall|a: int, b: int| 0 <= a < b < fnames.len() implies !text_lt(#[trigger] fnames[b], #[trigger] fnames[a]) by {
        let ka = kept_index(s, p, a);
        let kb = kept_index(s, p, b);
        assert(ka < kb);
        assert(fnames[a] == names[ka] && fnames[b] == names[kb]);
    }
}

pub proof fn lemma_filter_step<A>(s: Seq<A>, i: int, p: spec_fn(A) -> bool)
    requires
        0 <= i < s.len(),
    ensures
        s.subrange(0, i + 1).filter(p) == (if p(s[i]) {
            s.subrange(0, i).filter(p).push(s[i])
        } else {
            s.subrange(0, i).filter(p)
        }),
{
    assert(s.subrange(0, i + 1) =~= s.subrange(0, i).push(s[i]));
    s.subrange(0, i).lemma_filter_push(s[i], p);
}

/// Newest first, unique ids and unique paths survive dropping clips.
proof fn lemma_filter_clips(s: Seq<ClipModel>, p: spec_fn(ClipModel) -> bool)
    requires
        newest_first(s),
        forall|i: int, j: int| 0 <= i < j < s.len() ==> #[trigger] s[i].id != #[trigger] s[j].id,
        forall|i: int, j: int| 0 <= i < j < s.len() ==> #[trigger] s[i].path != #[trigger] s[j].path,
    ensures
        newest_first(s.filter(p)),
        forall|i: int, j: int|
            0 <= i < j < s.filter(p).len() ==> #[trigger] s.filter(p)[i].id != #[trigger] s.filter(
                p,
            )[j].id,
        forall|i: int, j: int|
            0 <= i < j < s.filter(p).len() ==> #[trigger] s.filter(p)[i].path
                != #[trigger] s.filter(p)[j].path,
{
    lemma_filter_positions(s, p);
    let f = s.filter(p);
    assert forall|i: int, j: int| 0 <= i < j < f.len() implies #[trigger] f[i].recorded_at
        >= #[trigger] f[j].recorded_at by {
        assert(kept_index(s, p, i) < kept_index(s, p, j));
    }
    assert forall|i: int, j: int| 0 <= i < j < f.len() implies #[trigger] f[i].id
        != #[trigger] f[j].id by {
        assert(kept_index(s, p, i) < kept_index(s, p, j));
    }
    assert forall|i: int, j: int| 0 <= i < j < f.len() implies #[trigger] f[i].path
        != #[trigger] f[j].path by {
        assert(kept_index(s, p, i) < kept_index(s, p, j));
    }
}

pub fn contains_string(v: &[String], s: &String) -> (r: bool)
    ensures
        r == strings_view(v@).contains(s@),
{
    let mut i: usize = 0;
    while i < v.len()
        invariant
            i <= v@.len(),
            forall|k: int| 0 <= k < i ==> #[trigger] v@[k]@ != s@,
        decreases v.len() - i,
    {
        if v[i] == *s {
            assert(strings_view(v@)[i as int] == s@);
            return true;
        }
        i = i + 1;
    }
    proof {
        if strings_view(v@).contains(s@) {
            let k = choose|k: int| 0 <= k < v@.len() && strings_view(v@)[k] == s@;
            assert(v@[k]@ == s@);
        }
    }
    false
}

pub fn copy_bytes(v: &Vec<u8>) -> (r: Vec<u8>)
    ensures
        r@ == v@,
{
    let mut r: Vec<u8> = Vec::new();
    let mut i: usize = 0;
    while i < v.len()
        invariant
            i <= v@.len(),
            r@ == v@.subrange(0, i as int),
        decreases v.len() - i,
    {
        r.push(v[i]);
        i = i + 1;
        assert(r@ =~= v@.subrange(0, i as int));
    }
    assert(r@ =~= v@);
    r
}

impl Member {
    pub fn duplicate(&self) -> (r: Member)
        ensures
            r@ == self@,
    {
        Member {
            collection_id: self.collection_id.clone(),
            clip_id: self.clip_id.clone(),
            sort_order: self.sort_order,
            added_at: self.added_at,
        }
    }
}

impl Artifact {
    pub fn duplicate(&self) -> (r: Artifact)
        ensures
            r@ == self@,
    {
        Artifact {
            clip_id: self.clip_id.clone(),
            data: copy_bytes(&self.data),
            count: self.count,
            updated_at: self.updated_at,
        }
    }
}

/// The clips after giving clip `id` thumbnail `t` at time `at`.
pub open spec fn with_thumb(clips: Seq<ClipModel>, id: Seq<char>, t: Seq<char>, at: i64) -> Seq<
    ClipModel,
> {
    clips.map_values(
        |c: ClipModel|
            if c.id == id {
                ClipModel { thumb_path: Some(t), updated_at: at, ..c }
            } else {
                c
            },
    )
}

/// The clips after recording probe results for clip `id` at time `at`.
pub open spec fn with_probe(
    clips: Seq<ClipModel>,
    id: Seq<char>,
    duration_ms: u64,
    width: i32,
    height: i32,
    at: i64,
) -> Seq<ClipModel> {
    clips.map_values(
        |c: ClipModel|
            if c.id == id {
                ClipModel {
                    duration_ms: Some(duration_ms),
                    width: Some(width),
                    height: Some(height),
                    updated_at: at,
                    ..c
                }
            } else {
                c
            },
    )
}

/// The clips after setting clip `id`'s description to `d` at time `at`.
pub open spec fn with_description(clips: Seq<ClipModel>, id: Seq<char>, d: Seq<char>, at: i64) -> Seq<
    ClipModel,
> {
    clips.map_values(
        |c: ClipModel|
            if c.id == id {
                ClipModel { description: d, updated_at: at, ..c }
            } else {
                c
            },
    )
}

/// The clips after setting the star of every listed clip to `s` at time `at`.
pub open spec fn with_star(clips: Seq<ClipModel>, ids: Seq<Seq<char>>, s: bool, at: i64) -> Seq<
    ClipModel,
> {
    clips.map_values(
        |c: ClipModel|
            if ids.contains(c.id) {
                ClipModel { starred: s, updated_at: at, ..c }
            } else {
                c
            },
    )
}

impl DbState {
    /// Records the thumbnail of clip `clip_id`; no clip has that id, nothing changes.
    pub fn update_clip_thumb(&mut self, clip_id: &str, thumb_path: &str) -> (r: Result<(), String>)
        requires
            old(self)@.inv(),
        ensures
            r is Ok,
            final(self)@.inv(),
            exists|at: i64|
                final(self)@ == (Catalog {
                    clips: #[trigger] with_thumb(old(self)@.clips, clip_id@, thumb_path@, at),
                    ..old(self)@
                }),
    {
        let now = now_seconds();
        let id = clip_id.to_owned();
        let ghost old_view = self@;
        match self.find_clip_by_id(&id) {
            None => {
                assert(self@.clips =~= with_thumb(old_view.clips, clip_id@, thumb_path@, now));
            },
            Some(i) => {
                let mut c = self.clips[i].duplicate();
                c.thumb_path = Some(thumb_path.to_owned());
                c.updated_at = now;
                self.replace_clip(i, c);
                assert(self@.clips =~= with_thumb(old_view.clips, clip_id@, thumb_path@, now));
            },
        }
        assert(self@ == (Catalog {
            clips: with_thumb(old_view.clips, clip_id@, thumb_path@, now),
            ..old_view
        }));
        Ok(())
    }

    /// Records what a media probe found for clip `clip_id`: its duration in
    /// milliseconds and its frame size.
    pub fn update_clip_meta(&mut self, clip_id: &str, duration_ms: u64, width: i32, height: i32) -> (r:
        Result<(), String>)
        requires
            old(self)@.inv(),
        ensures
            r is Ok,
            final(self)@.inv(),
            exists|at: i64|
                final(self)@ == (Catalog {
                    clips: #[trigger] with_probe(old(self)@.clips, clip_id@, duration_ms, width, height, at),
                    ..old(self)@
                }),
    {
        let now = now_seconds();
        let id = clip_id.to_owned();
        let ghost old_view = self@;
        match self.find_clip_by_id(&id) {
            None => {
                assert(self@.clips =~= with_probe(
                    old_view.clips,
                    clip_id@,
                    duration_ms,
                    width,
                    height,
                    now,
                ));
            },
            Some(i) => {
                let mut c = self.clips[i].duplicate();
                c.duration_ms = Some(duration_ms);
                c.width = Some(width);
                c.height = Some(height);
                c.updated_at = now;
                self.replace_clip(i, c);
                assert(self@.clips =~= with_probe(
                    old_view.clips,
                    clip_id@,
                    duration_ms,
                    width,
                    height,
                    now,
                ));
            },
        }
        assert(self@ == (Catalog {
            clips: with_probe(old_view.clips, clip_id@, duration_ms, width, height, now),
            ..old_view
        }));
        Ok(())
    }

    /// Sets the description of clip `clip_id`.
    pub fn update_description(&mut self, clip_id: &str, desc: &str) -> (r: Result<(), String>)
        requires
            old(self)@.inv(),
        ensures
            r is Ok,
            final(self)@.inv(),
            exists|at: i64|
                final(self)@ == (Catalog {
                    clips: #[trigger] with_description(old(self)@.clips, clip_id@, desc@, at),
                    ..old(self)@
                }),
    {
        let now = now_seconds();
        let id = clip_id.to_owned();
        let ghost old_view = self@;
        match self.find_clip_by_id(&id) {
            None => {
                assert(self@.clips =~= with_description(old_view.clips, clip_id@, desc@, now));
            },
            Some(i) => {
                let mut c = self.clips[i].duplicate();
                c.description = desc.to_owned();
                c.updated_at = now;
                self.replace_clip(i, c);
                assert(self@.clips =~= with_description(old_view.clips, clip_id@, desc@, now));
            },
        }
        assert(self@ == (Catalog {
            clips: with_description(old_view.clips, clip_id@, desc@, now),
            ..old_view
        }));
        Ok(())
    }

    /// Sets the star of every listed clip, all at one time; ids that name no
    /// clip are passed over.
    pub fn bulk_star(&mut self, clip_ids: &[String], starred: bool) -> (r: Result<(), String>)
        requires
            old(self)@.inv(),
        ensures
            r is Ok,
            final(self)@.inv(),
            exists|at: i64|
                final(self)@ == (Catalog {
                    clips: #[trigger] with_star(old(self)@.clips, strings_view(clip_ids@), starred, at),
                    ..old(self)@
                }),
    {
        let now = now_seconds();
        let ghost old_view = self@;
        let ghost ids = strings_view(clip_ids@);
        let mut i: usize = 0;
        while i < self.clips.len()
            invariant
                i <= self@.clips.len(),
                ids == strings_view(clip_ids@),
                self@.inv(),
                self@ == (Catalog { clips: self@.clips, ..old_view }),
                self@.clips.len() == old_view.clips.len(),
                forall|k: int|
                    0 <= k < self@.clips.len() ==> #[trigger] self@.clips[k] == (if k < i
                        && ids.contains(old_view.clips[k].id) {
                        ClipModel { starred: starred, updated_at: now, ..old_view.clips[k] }
                    } else {
                        old_view.clips[k]
                    }),
            decreases self@.clips.len() - i,
        {
            let ghost before = self@.clips;
            assert(before[i as int] == old_view.clips[i as int]);
            assert(before[i as int].id == self.clips@[i as int].id@);
            let hit = contains_string(clip_ids, &self.clips[i].id);
            if hit {
                let mut c = self.clips[i].duplicate();
                c.starred = starred;
                c.updated_at = now;
                self.replace_clip(i, c);
                assert(self@.clips == before.update(
                    i as int,
                    ClipModel { starred: starred, updated_at: now, ..old_view.clips[i as int] },
                ));
            }
            assert forall|k: int| 0 <= k < self@.clips.len() implies #[trigger] self@.clips[k] == (if k
                < i + 1 && ids.contains(old_view.clips[k].id) {
                ClipModel { starred: starred, updated_at: now, ..old_view.clips[k] }
            } else {
                old_view.clips[k]
            }) by {
                if k == i {
                    assert(hit == ids.contains(old_view.clips[k].id));
                }
                assert(before[k] == (if k < i && ids.contains(old_view.clips[k].id) {
                    ClipModel { starred: starred, updated_at: now, ..old_view.clips[k] }
                } else {
                    old_view.clips[k]
                }));
            }
            i = i + 1;
        }
        assert(self@.clips =~= with_star(old_view.clips, ids, starred, now));
        Ok(())
    }

    /// Sets the star of clip `clip_id`.
    pub fn toggle_star(&mut self, clip_id: &str, starred: bool) -> (r: Result<(), String>)
        requires
            old(self)@.inv(),
        ensures
            r is Ok,
            final(self)@.inv(),
            exists|at: i64|
                final(self)@ == (Catalog {
                    clips: #[trigger] with_star(old(self)@.clips, seq![clip_id@], starred, at),
                    ..old(self)@
                }),
    {
        let ids = vec![clip_id.to_owned()];
        assert(strings_view(ids@) =~= seq![clip_id@]);
        self.bulk_star(ids.as_slice(), starred)
    }
}

/// An element kept by a filter was in the unfiltered sequence.
proof fn lemma_filter_from<A>(s: Seq<A>, p: spec_fn(A) -> bool, i: int)
    requires
        0 <= i < s.filter(p).len(),
    ensures
        s.contains(s.filter(p)[i]),
        p(s.filter(p)[i]),
{
    broadcast use group_filter_ensures;

    lemma_filter_positions(s, p);
    assert(s[kept_index(s, p, i)] == s.filter(p)[i]);
}

proof fn lemma_kept_clip(clips: Seq<ClipModel>, ids: Seq<Seq<char>>, id: Seq<char>)
    requires
        has_clip_id(clips, id),
        !ids.contains(id),
    ensures
        has_clip_id(clips_not_in(clips, ids), id),
{
    broadcast use group_filter_ensures;

    let k = choose|k: int| 0 <= k < clips.len() && #[trigger] clips[k].id == id;
    let f = clips_not_in(clips, ids);
    assert(f.contains(clips[k]));
    let m = choose|m: int| 0 <= m < f.len() && f[m] == clips[k];
    assert(f[m].id == id);
}

fn clips_without(rows: &Vec<Clip>, ids: &[String]) -> (r: Vec<Clip>)
    ensures
        r@.map_values(|c: Clip| c@) == clips_not_in(
            rows@.map_values(|c: Clip| c@),
            strings_view(ids@),
        ),
{
    let ghost s = rows@.map_values(|c: Clip| c@);
    let ghost sv = strings_view(ids@);
    let mut r: Vec<Clip> = Vec::new();
    let mut i: usize = 0;
    while i < rows.len()
        invariant
            i <= rows@.len(),
            s == rows@.map_values(|c: Clip| c@),
            sv == strings_view(ids@),
            r@.map_values(|c: Clip| c@) == clips_not_in(s.subrange(0, i as int), sv),
        decreases rows.len() - i,
    {
        proof {
            lemma_filter_step(s, i as int, |c: ClipModel| !sv.contains(c.id));
        }
        let ghost before = r@.map_values(|c: Clip| c@);
        if !contains_string(ids, &rows[i].id) {
            r.push(rows[i].duplicate());
            assert(r@.map_values(|c: Clip| c@) =~= before.push(s[i as int]));
        }
        i = i + 1;
    }
    assert(s.subrange(0, i as int) =~= s);
    r
}

fn members_without(rows: &Vec<Member>, ids: &[String]) -> (r: Vec<Member>)
    ensures
        r@.map_values(|m: Member| m@) == members_not_in(
            rows@.map_values(|m: Member| m@),
            strings_view(ids@),
        ),
{
    let ghost s = rows@.map_values(|m: Member| m@);
    let ghost sv = strings_view(ids@);
    let mut r: Vec<Member> = Vec::new();
    let mut i: usize = 0;
    while i < rows.len()
        invariant
            i <= rows@.len(),
            s == rows@.map_values(|m: Member| m@),
            sv == strings_view(ids@),
            r@.map_values(|m: Member| m@) == members_not_in(s.subrange(0, i as int), sv),
        decreases rows.len() - i,
    {
        proof {
            lemma_filter_step(s, i as int, |m: MemberModel| !sv.contains(m.clip_id));
        }
        let ghost before = r@.map_values(|m: Member| m@);
        if !contains_string(ids, &rows[i].clip_id) {
            r.push(rows[i].duplicate());
            assert(r@.map_values(|m: Member| m@) =~= before.push(s[i as int]));
        }
        i = i + 1;
    }
    assert(s.subrange(0, i as int) =~= s);
    r
}

fn artifacts_without(rows: &Vec<Artifact>, ids: &[String]) -> (r: Vec<Artifact>)
    ensures
        r@.map_values(|a: Artifact| a@) == artifacts_not_in(
            rows@.map_values(|a: Artifact| a@),
            strings_view(ids@),
        ),
{
    let ghost s = rows@.map_values(|a: Artifact| a@);
    let ghost sv = strings_view(ids@);
    let mut r: Vec<Artifact> = Vec::new();
    let mut i: usize = 0;
    while i < rows.len()
        invariant
            i <= rows@.len(),
            s == rows@.map_values(|a: Artifact| a@),
            sv == strings_view(ids@),
            r@.map_values(|a: Artifact| a@) == artifacts_not_in(s.subrange(0, i as int), sv),
        decreases rows.len() - i,
    {
        proof {
            lemma_filter_step(s, i as int, |a: ArtifactModel| !sv.contains(a.clip_id));
        }
        let ghost before = r@.map_values(|a: Artifact| a@);
        if !contains_string(ids, &rows[i].clip_id) {
            r.push(rows[i].duplicate());
            assert(r@.map_values(|a: Artifact| a@) =~= before.push(s[i as int]));
        }
        i = i + 1;
    }
    assert(s.subrange(0, i as int) =~= s);
    r
}

/// The catalog after deleting the listed clips, with everything that
/// hangs on them: tag links go with the clip rows, memberships and cached
/// artifacts are dropped.
pub open spec fn without_clips(c: Catalog, ids: Seq<Seq<char>>) -> Catalog {
    Catalog {
        clips: clips_not_in(c.clips, ids),
        members: members_not_in(c.members, ids),
        embeddings: artifacts_not_in(c.embeddings, ids),
        waveforms: artifacts_not_in(c.waveforms, ids),
        ..c
    }
}

proof fn lemma_without_clips_inv(c: Catalog, ids: Seq<Seq<char>>)
    requires
        c.inv(),
    ensures
        without_clips(c, ids).inv(),
{
    broadcast use group_filter_ensures;

    let n = without_clips(c, ids);
    let pc = |x: ClipModel| !ids.contains(x.id);
    let pm = |m: MemberModel| !ids.contains(m.clip_id);
    let pa = |a: ArtifactModel| !ids.contains(a.clip_id);
    lemma_filter_clips(c.clips, pc);
    assert forall|i: int| 0 <= i < n.clips.len() implies distinct_strings(#[trigger] n.clips[i].tags)
        && forall|k: int| 0 <= k < n.clips[i].tags.len() ==> has_tag_id(n.tags, #[trigger] n.clips[i].tags[k]) by {
        lemma_filter_from(c.clips, pc, i);
        let j = choose|j: int| 0 <= j < c.clips.len() && c.clips[j] == n.clips[i];
        assert(distinct_strings(c.clips[j].tags));
        assert forall|k: int| 0 <= k < n.clips[i].tags.len() implies has_tag_id(n.tags, #[trigger] n.clips[i].tags[k]) by {
            assert(has_tag_id(c.tags, c.clips[j].tags[k]));
        }
    }
    assert forall|i: int, k: int| 0 <= i < n.clips.len() && 0 <= k < n.clips[i].tags.len() implies has_tag_id(
        n.tags,
        #[trigger] n.clips[i].tags[k],
    ) by {}
    lemma_filter_positions(c.members, pm);
    assert forall|i: int, j: int| 0 <= i < j < n.members.len() implies !(#[trigger] n.members[i].collection_id
        == #[trigger] n.members[j].collection_id && n.members[i].clip_id == n.members[j].clip_id) by {
        assert(kept_index(c.members, pm, i) < kept_index(c.members, pm, j));
    }
    assert forall|i: int| 0 <= i < n.members.len() implies has_collection_id(
        n.collections,
        #[trigger] n.members[i].collection_id,
    ) && has_clip_id(n.clips, n.members[i].clip_id) by {
        lemma_filter_from(c.members, pm, i);
        let j = choose|j: int| 0 <= j < c.members.len() && c.members[j] == n.members[i];
        assert(has_collection_id(c.collections, c.members[j].collection_id));
        lemma_kept_clip(c.clips, ids, n.members[i].clip_id);
    }
    lemma_filter_positions(c.embeddings, pa);
    assert forall|i: int, j: int| 0 <= i < j < n.embeddings.len() implies #[trigger] n.embeddings[i].clip_id
        != #[trigger] n.embeddings[j].clip_id by {
        assert(kept_index(c.embeddings, pa, i) < kept_index(c.embeddings, pa, j));
    }
    lemma_filter_positions(c.waveforms, pa);
    assert forall|i: int, j: int| 0 <= i < j < n.waveforms.len() implies #[trigger] n.waveforms[i].clip_id
        != #[trigger] n.waveforms[j].clip_id by {
        assert(kept_index(c.waveforms, pa, i) < kept_index(c.waveforms, pa, j));
    }
    assert forall|i: int| 0 <= i < n.embeddings.len() implies has_clip_id(
        n.clips,
        #[trigger] n.embeddings[i].clip_id,
    ) by {
        lemma_filter_from(c.embeddings, pa, i);
        let j = choose|j: int| 0 <= j < c.embeddings.len() && c.embeddings[j] == n.embeddings[i];
        assert(has_clip_id(c.clips, c.embeddings[j].clip_id));
        lemma_kept_clip(c.clips, ids, n.embeddings[i].clip_id);
    }
    assert forall|i: int| 0 <= i < n.waveforms.len() implies has_clip_id(
        n.clips,
        #[trigger] n.waveforms[i].clip_id,
    ) by {
        lemma_filter_from(c.waveforms, pa, i);
        let j = choose|j: int| 0 <= j < c.waveforms.len() && c.waveforms[j] == n.waveforms[i];
        assert(has_clip_id(c.clips, c.waveforms[j].clip_id));
        lemma_kept_clip(c.clips, ids, n.waveforms[i].clip_id);
    }
}

impl DbState {
    /// Deletes the listed clips; their tag links, collection memberships and
    /// cached artifacts go with them. Ids that name no clip are passed over.
    pub fn delete_clips(&mut self, ids: &[String]) -> (r: Result<(), String>)
        requires
            old(self)@.inv(),
        ensures
            r is Ok,
            final(self)@.inv(),
            final(self)@ == without_clips(old(self)@, strings_view(ids@)),
    {
        let ghost old_view = self@;
        let clips = clips_without(&self.clips, ids);
        let members = members_without(&self.members, ids);
        let embeddings = artifacts_without(&self.embeddings, ids);
        let waveforms = artifacts_without(&self.waveforms, ids);
        self.clips = clips;
        self.members = members;
        self.embeddings = embeddings;
        self.waveforms = waveforms;
        proof {
            lemma_without_clips_inv(old_view, strings_view(ids@));
        }
        Ok(())
    }
}

/// Clip `c` with tag `t` added (where it lacks it) or taken away.
pub open spec fn retagged(c: ClipModel, t: Seq<char>, add: bool) -> ClipModel {
    if add {
        if c.tags.contains(t) {
            c
        } else {
            ClipModel { tags: c.tags.push(t), ..c }
        }
    } else {
        ClipModel { tags: without(c.tags, t), ..c }
    }
}

/// The clips after tagging every listed clip with `t`.
pub open spec fn tagged(clips: Seq<ClipModel>, ids: Seq<Seq<char>>, t: Seq<char>) -> Seq<ClipModel> {
    clips.map_values(
        |c: ClipModel|
            if ids.contains(c.id) {
                retagged(c, t, true)
            } else {
                c
            },
    )
}

/// The clips after taking tag `t` from every listed clip.
pub open spec fn untagged(clips: Seq<ClipModel>, ids: Seq<Seq<char>>, t: Seq<char>) -> Seq<
    ClipModel,
> {
    clips.map_values(
        |c: ClipModel|
            if ids.contains(c.id) {
                retagged(c, t, false)
            } else {
                c
            },
    )
}

/// The clips after taking tag `t` from all of them.
pub open spec fn stripped(clips: Seq<ClipModel>, t: Seq<char>) -> Seq<ClipModel> {
    clips.map_values(|c: ClipModel| retagged(c, t, false))
}

/// The tags but tag `id`.
pub open spec fn tags_without(tags: Seq<TagModel>, id: Seq<char>) -> Seq<TagModel> {
    tags.filter(|t: TagModel| t.id != id)
}

/// Whether every listed id names a clip.
pub open spec fn all_clips_exist(clips: Seq<ClipModel>, ids: Seq<Seq<char>>) -> bool {
    forall|k: int| 0 <= k < ids.len() ==> has_clip_id(clips, #[trigger] ids[k])
}

impl Tag {
    pub fn duplicate(&self) -> (r: Tag)
        ensures
            r@ == self@,
    {
        Tag {
            id: self.id.clone(),
            name: self.name.clone(),
            color: self.color.clone(),
            created_at: self.created_at,
            clip_count: self.clip_count,
        }
    }
}

impl DbState {
    fn retag_clips(&mut self, ids: &[String], all: bool, tag: &String, add: bool)
        requires
            old(self)@.inv(),
            add ==> has_tag_id(old(self)@.tags, tag@),
        ensures
            final(self)@.inv(),
            final(self)@ == (Catalog { clips: final(self)@.clips, ..old(self)@ }),
            final(self)@.clips == old(self)@.clips.map_values(
                |c: ClipModel|
                    if all || strings_view(ids@).contains(c.id) {
                        retagged(c, tag@, add)
                    } else {
                        c
                    },
            ),
    {
        let ghost old_view = self@;
        let ghost sv = strings_view(ids@);
        let mut i: usize = 0;
        while i < self.clips.len()
            invariant
                i <= self@.clips.len(),
                sv == strings_view(ids@),
                add ==> has_tag_id(old_view.tags, tag@),
                self@.inv(),
                self@ == (Catalog { clips: self@.clips, ..old_view }),
                self@.clips.len() == old_view.clips.len(),
                forall|k: int|
                    0 <= k < self@.clips.len() ==> #[trigger] self@.clips[k] == (if k < i && (all
                        || sv.contains(old_view.clips[k].id)) {
                        retagged(old_view.clips[k], tag@, add)
                    } else {
                        old_view.clips[k]
                    }),
            decreases self@.clips.len() - i,
        {
            let ghost before = self@.clips;
            assert(before[i as int] == old_view.clips[i as int]);
            assert(before[i as int] == self.clips@[i as int]@);
            let hit = all || contains_string(ids, &self.clips[i].id);
            if hit {
                let mut c = self.clips[i].duplicate();
                let ghost ct = c@.tags;
                proof {
                    assert(distinct_strings(before[i as int].tags));
                }
                if add {
                    if !contains_string(&c.tags, tag) {
                        c.tags.push(tag.clone());
                        proof {
                            assert(strings_view(c.tags@) =~= ct.push(tag@));
                            assert forall|a: int, b: int| 0 <= a < b < c@.tags.len() implies #[trigger] c@.tags[a]
                                != #[trigger] c@.tags[b] by {
                                if b == ct.len() {
                                    assert(ct.contains(ct[a]));
                                }
                            }
                            assert forall|k: int| 0 <= k < c@.tags.len() implies has_tag_id(
                                old_view.tags,
                                #[trigger] c@.tags[k],
                            ) by {
                                if k < ct.len() {
                                    assert(has_tag_id(old_view.tags, before[i as int].tags[k]));
                                }
                            }
                        }
                    }
                } else {
                    let kept = remove_string(&c.tags, tag);
                    c.tags = kept;
                    proof {
                        lemma_filter_distinct(ct, |t: Seq<char>| t != tag@);
                        assert forall|k: int| 0 <= k < c@.tags.len() implies has_tag_id(
                            old_view.tags,
                            #[trigger] c@.tags[k],
                        ) by {
                            let x = c@.tags[k];
                            assert(c@.tags == ct.filter(|t: Seq<char>| t != tag@));
                            assert(c@.tags.contains(x));
                            assert(ct.contains(x));
                            let m = choose|m: int| 0 <= m < ct.len() && ct[m] == x;
                            assert(has_tag_id(old_view.tags, before[i as int].tags[m]));
                        }
                    }
                }
                assert(c@ == retagged(old_view.clips[i as int], tag@, add));
                self.replace_clip(i, c);
            }
            assert forall|k: int| 0 <= k < self@.clips.len() implies #[trigger] self@.clips[k] == (if k
                < i + 1 && (all || sv.contains(old_view.clips[k].id)) {
                retagged(old_view.clips[k], tag@, add)
            } else {
                old_view.clips[k]
            }) by {
                if k == i {
                    assert(hit == (all || sv.contains(old_view.clips[k].id)));
                }
                assert(before[k] == (if k < i && (all || sv.contains(old_view.clips[k].id)) {
                    retagged(old_view.clips[k], tag@, add)
                } else {
                    old_view.clips[k]
                }));
            }
            i = i + 1;
        }
        assert(self@.clips =~= old_view.clips.map_values(
            |c: ClipModel|
                if all || sv.contains(c.id) {
                    retagged(c, tag@, add)
                } else {
                    c
                },
        ));
    }

    fn find_tag_by_id(&self, id: &String) -> (r: Option<usize>)
        ensures
            match r {
                Some(i) => i < self@.tags.len() && self@.tags[i as int].id == id@,
                None => !has_tag_id(self@.tags, id@),
            },
    {
        let mut i: usize = 0;
        while i < self.tags.len()
            invariant
                i <= self.tags@.len(),
                forall|k: int| 0 <= k < i ==> #[trigger] self.tags@[k].id@ != id@,
            decreases self.tags.len() - i,
        {
            if self.tags[i].id == *id {
                return Some(i);
            }
            i = i + 1;
        }
        None
    }

    fn find_tag_by_name(&self, name: &String) -> (r: bool)
        ensures
            r == has_tag_name(self@.tags, name@),
    {
        let mut i: usize = 0;
        while i < self.tags.len()
            invariant
                i <= self.tags@.len(),
                forall|k: int| 0 <= k < i ==> #[trigger] self.tags@[k].name@ != name@,
            decreases self.tags.len() - i,
        {
            if self.tags[i].name == *name {
                assert(self@.tags[i as int].name == name@);
                return true;
            }
            i = i + 1;
        }
        false
    }

    fn all_clips_exist(&self, ids: &[String]) -> (r: bool)
        ensures
            r == all_clips_exist(self@.clips, strings_view(ids@)),
    {
        let mut i: usize = 0;
        while i < ids.len()
            invariant
                i <= ids@.len(),
                forall|k: int| 0 <= k < i ==> has_clip_id(self@.clips, #[trigger] strings_view(ids@)[k]),
            decreases ids.len() - i,
        {
            if self.find_clip_by_id(&ids[i]).is_none() {
                assert(!has_clip_id(self@.clips, strings_view(ids@)[i as int]));
                return false;
            }
            i = i + 1;
        }
        true
    }

    /// Every tag, in order of name, each with the number of clips that
    /// carry it.
    pub fn get_all_tags(&self) -> (r: Result<Vec<Tag>, String>)
        ensures
            r matches Ok(v) && v@.len() == self@.tags.len() && forall|i: int|
                0 <= i < v@.len() ==> #[trigger] v@[i]@ == (TagModel {
                    clip_count: Some(count_i64(tag_use(self@.clips, self@.tags[i].id))),
                    ..self@.tags[i]
                }),
    {
        let mut out: Vec<Tag> = Vec::new();
        let mut i: usize = 0;
        while i < self.tags.len()
            invariant
                i <= self.tags@.len(),
                out@.len() == i,
                forall|k: int|
                    0 <= k < i ==> #[trigger] out@[k]@ == (TagModel {
                        clip_count: Some(count_i64(tag_use(self@.clips, self@.tags[k].id))),
                        ..self@.tags[k]
                    }),
            decreases self.tags.len() - i,
        {
            let mut t = self.tags[i].duplicate();
            let n = self.count_tag_use(&t.id);
            t.clip_count = Some(n);
            out.push(t);
            i = i + 1;
        }
        Ok(out)
    }

    fn count_tag_use(&self, id: &String) -> (r: i64)
        ensures
            r == count_i64(tag_use(self@.clips, id@)),
    {
        let ghost s = self@.clips;
        let ghost p = |c: ClipModel| c.tags.contains(id@);
        let mut n: u64 = 0;
        let mut i: usize = 0;
        while i < self.clips.len()
            invariant
                i <= self.clips@.len(),
                s == self@.clips,
                p == (|c: ClipModel| c.tags.contains(id@)),
                n as int == s.subrange(0, i as int).filter(p).len(),
            decreases self.clips.len() - i,
        {
            proof {
                lemma_filter_step(s, i as int, p);
                s.subrange(0, i as int).filter(p).lemma_filter_len(p);
                assert(s[i as int] == self.clips@[i as int]@);
            }
            if contains_string(&self.clips[i].tags, id) {
                n = n + 1;
            }
            i = i + 1;
        }
        assert(s.subrange(0, i as int) =~= s);
        if n > i64::MAX as u64 {
            i64::MAX
        } else {
            n as i64
        }
    }

    /// Creates a tag. Ids and names are unique: a taken one is refused and
    /// nothing changes.
    pub fn create_tag(&mut self, id: &str, name: &str, color: &str) -> (r: Result<Tag, String>)
        requires
            old(self)@.inv(),
        ensures
            final(self)@.inv(),
            r is Err <==> has_tag_id(old(self)@.tags, id@) || has_tag_name(old(self)@.tags, name@),
            r is Err ==> final(self)@ == old(self)@,
            r matches Ok(t) ==> t@ == (TagModel {
                id: id@,
                name: name@,
                color: color@,
                created_at: t.created_at,
                clip_count: Some(0),
            }) && final(self)@ == (Catalog {
                tags: old(self)@.tags.insert(
                    name_pos(tag_names(old(self)@.tags), name@),
                    TagModel { clip_count: None, ..t@ },
                ),
                ..old(self)@
            }),
    {
        let id_s = id.to_owned();
        let name_s = name.to_owned();
        if self.find_tag_by_id(&id_s).is_some() {
            return Err("UNIQUE constraint failed: tags.id".to_owned());
        }
        if self.find_tag_by_name(&name_s) {
            return Err("UNIQUE constraint failed: tags.name".to_owned());
        }
        let now = now_seconds();
        let ghost old_view = self@;
        let ghost names = tag_names(old_view.tags);
        let mut p: usize = 0;
        while p < self.tags.len() && !text_less(name, self.tags[p].name.as_str())
            invariant
                p <= self.tags@.len(),
                self@ == old_view,
                names == tag_names(old_view.tags),
                forall|k: int| 0 <= k < p ==> !text_lt(name@, #[trigger] names[k]),
            decreases self.tags.len() - p,
        {
            assert(names[p as int] == self.tags@[p as int]@.name);
            p = p + 1;
        }
        proof {
            if p < self.tags@.len() {
                assert(names[p as int] == self.tags@[p as int]@.name);
            }
            lemma_name_pos(names, name@, p as int);
            lemma_insert_ascending(names, name@, p as int);
        }
        let row = Tag {
            id: id_s.clone(),
            name: name_s.clone(),
            color: color.to_owned(),
            created_at: now,
            clip_count: None,
        };
        let ghost row_view = row@;
        self.tags.insert(p, row);
        proof {
            let n = self@.tags;
            let o = old_view.tags;
            assert(n =~= o.insert(p as int, row_view));
            assert(tag_names(n) =~= names.insert(p as int, name@));
            assert forall|x: Seq<char>| has_tag_id(o, x) implies has_tag_id(n, x) by {
                let k = choose|k: int| 0 <= k < o.len() && #[trigger] o[k].id == x;
                if k < p {
                    assert(n[k] == o[k]);
                } else {
                    assert(n[k + 1] == o[k]);
                }
            }
            assert forall|a: int, b: int| 0 <= a < b < n.len() implies #[trigger] n[a].id != #[trigger] n[b].id
                && n[a].name != n[b].name by {
                if a == p {
                    assert(n[b] == o[b - 1]);
                    assert(o[b - 1].id != id@ && o[b - 1].name != name@);
                } else if b == p {
                    assert(n[a] == o[a]);
                    assert(o[a].id != id@ && o[a].name != name@);
                } else {
                    let oa = if a < p {
                        a
                    } else {
                        a - 1
                    };
                    let ob = if b < p {
                        b
                    } else {
                        b - 1
                    };
                    assert(n[a] == o[oa] && n[b] == o[ob]);
                }
            }
            assert(self@ == (Catalog { tags: n, ..old_view }));
        }
        Ok(Tag { id: id_s, name: name_s, color: color.to_owned(), created_at: now, clip_count: Some(0) })
    }

    /// Deletes tag `id` and takes it from every clip that carries it.
    pub fn delete_tag(&mut self, id: &str) -> (r: Result<(), String>)
        requires
            old(self)@.inv(),
        ensures
            r is Ok,
            final(self)@.inv(),
            final(self)@ == (Catalog {
                clips: stripped(old(self)@.clips, id@),
                tags: tags_without(old(self)@.tags, id@),
                ..old(self)@
            }),
    {
        let ghost old_view = self@;
        let id_s = id.to_owned();
        let no_ids: Vec<String> = Vec::new();
        self.retag_clips(no_ids.as_slice(), true, &id_s, false);
        assert(self@.clips =~= stripped(old_view.clips, id@));
        let ghost mid = self@;
        let mut kept: Vec<Tag> = Vec::new();
        let mut i: usize = 0;
        while i < self.tags.len()
            invariant
                i <= self.tags@.len(),
                self@ == mid,
                id_s@ == id@,
                kept@.map_values(|t: Tag| t@) == tags_without(mid.tags.subrange(0, i as int), id@),
            decreases self.tags.len() - i,
        {
            proof {
                lemma_filter_step(mid.tags, i as int, |t: TagModel| t.id != id@);
            }
            let ghost before = kept@.map_values(|t: Tag| t@);
            assert(mid.tags[i as int] == self.tags@[i as int]@);
            if self.tags[i].id != id_s {
                kept.push(self.tags[i].duplicate());
                assert(kept@.map_values(|t: Tag| t@) =~= before.push(mid.tags[i as int]));
            }
            i = i + 1;
        }
        assert(mid.tags.subrange(0, i as int) =~= mid.tags);
        self.tags = kept;
        proof {
            broadcast use group_filter_ensures;

            let n = self@;
            assert(n.clips == mid.clips && n.members == mid.members && n.collections == mid.collections
                && n.embeddings == mid.embeddings && n.waveforms == mid.waveforms);
            let p = |t: TagModel| t.id != id@;
            lemma_filter_positions(mid.tags, p);
            lemma_filter_ascending(mid.tags, p, |t: TagModel| t.name);
            assert(tag_names(mid.tags) =~= mid.tags.map_values(|t: TagModel| t.name));
            assert(tag_names(n.tags) =~= n.tags.map_values(|t: TagModel| t.name));
            assert forall|a: int, b: int| 0 <= a < b < n.tags.len() implies #[trigger] n.tags[a].id
                != #[trigger] n.tags[b].id && n.tags[a].name != n.tags[b].name by {
                assert(kept_index(mid.tags, p, a) < kept_index(mid.tags, p, b));
            }
            assert forall|i: int, k: int| 0 <= i < n.clips.len() && 0 <= k < n.clips[i].tags.len() implies has_tag_id(
                n.tags,
                #[trigger] n.clips[i].tags[k],
            ) by {
                let x = n.clips[i].tags[k];
                let ct = old_view.clips[i].tags;
                assert(n.clips[i].tags == ct.filter(|t: Seq<char>| t != id@));
                lemma_filter_distinct(ct, |t: Seq<char>| t != id@);
                assert(n.clips[i].tags.contains(x));
                assert(x != id@);
                assert(has_tag_id(mid.tags, x));
                let m = choose|m: int| 0 <= m < mid.tags.len() && #[trigger] mid.tags[m].id == x;
                assert(n.tags.contains(mid.tags[m]));
                let q = choose|q: int| 0 <= q < n.tags.len() && n.tags[q] == mid.tags[m];
                assert(n.tags[q].id == x);
            }
        }
        Ok(())
    }

    /// Tags clip `clip_id` with tag `tag_id`. Both must exist, else the link
    /// is refused; a link that exists already is kept as it is.
    pub fn add_clip_tag(&mut self, clip_id: &str, tag_id: &str) -> (r: Result<(), String>)
        requires
            old(self)@.inv(),
        ensures
            final(self)@.inv(),
            r is Err <==> !has_clip_id(old(self)@.clips, clip_id@) || !has_tag_id(old(self)@.tags, tag_id@),
            r is Err ==> final(self)@ == old(self)@,
            r is Ok ==> final(self)@ == (Catalog {
                clips: tagged(old(self)@.clips, seq![clip_id@], tag_id@),
                ..old(self)@
            }),
    {
        let ids = vec![clip_id.to_owned()];
        assert(strings_view(ids@) =~= seq![clip_id@]);
        proof {
            assert(seq![clip_id@][0] == clip_id@);
        }
        self.bulk_add_tag(ids.as_slice(), tag_id)
    }

    /// Takes tag `tag_id` from clip `clip_id`.
    pub fn remove_clip_tag(&mut self, clip_id: &str, tag_id: &str) -> (r: Result<(), String>)
        requires
            old(self)@.inv(),
        ensures
            r is Ok,
            final(self)@.inv(),
            final(self)@ == (Catalog {
                clips: untagged(old(self)@.clips, seq![clip_id@], tag_id@),
                ..old(self)@
            }),
    {
        let ids = vec![clip_id.to_owned()];
        assert(strings_view(ids@) =~= seq![clip_id@]);
        self.bulk_remove_tag(ids.as_slice(), tag_id)
    }

    /// Tags every listed clip with `tag_id`, all or none: where the tag or
    /// one of the clips does not exist, nothing changes.
    pub fn bulk_add_tag(&mut self, clip_ids: &[String], tag_id: &str) -> (r: Result<(), String>)
        requires
            old(self)@.inv(),
        ensures
            final(self)@.inv(),
            r is Err <==> !all_clips_exist(old(self)@.clips, strings_view(clip_ids@)) || !has_tag_id(
                old(self)@.tags,
                tag_id@,
            ),
            r is Err ==> final(self)@ == old(self)@,
            r is Ok ==> final(self)@ == (Catalog {
                clips: tagged(old(self)@.clips, strings_view(clip_ids@), tag_id@),
                ..old(self)@
            }),
    {
        let tag = tag_id.to_owned();
        if self.find_tag_by_id(&tag).is_none() || !self.all_clips_exist(clip_ids) {
            return Err("FOREIGN KEY constraint failed".to_owned());
        }
        let ghost old_view = self@;
        self.retag_clips(clip_ids, false, &tag, true);
        assert(self@.clips =~= tagged(old_view.clips, strings_view(clip_ids@), tag_id@));
        Ok(())
    }

    /// Takes tag `tag_id` from every listed clip.
    pub fn bulk_remove_tag(&mut self, clip_ids: &[String], tag_id: &str) -> (r: Result<(), String>)
        requires
            old(self)@.inv(),
        ensures
            r is Ok,
            final(self)@.inv(),
            final(self)@ == (Catalog {
                clips: untagged(old(self)@.clips, strings_view(clip_ids@), tag_id@),
                ..old(self)@
            }),
    {
        let tag = tag_id.to_owned();
        let ghost old_view = self@;
        self.retag_clips(clip_ids, false, &tag, false);
        assert(self@.clips =~= untagged(old_view.clips, strings_view(clip_ids@), tag_id@));
        Ok(())
    }
}

/// The memberships after adding the listed clips, in order, to collection
/// `col` at time `at`; a clip already in it stays where it is.
pub open spec fn joined(members: Seq<MemberModel>, col: Seq<char>, ids: Seq<Seq<char>>, at: i64) -> Seq<
    MemberModel,
>
    decreases ids.len(),
{
    if ids.len() == 0 {
        members
    } else {
        let m = joined(members, col, ids.drop_last(), at);
        if is_member(m, col, ids.last()) {
            m
        } else {
            m.push(MemberModel { collection_id: col, clip_id: ids.last(), sort_order: 0, added_at: at })
        }
    }
}

/// The memberships after taking the listed clips out of collection `col`.
pub open spec fn left(members: Seq<MemberModel>, col: Seq<char>, ids: Seq<Seq<char>>) -> Seq<
    MemberModel,
> {
    members.filter(|m: MemberModel| !(m.collection_id == col && ids.contains(m.clip_id)))
}

/// The memberships of collections other than `col`.
pub open spec fn members_outside(members: Seq<MemberModel>, col: Seq<char>) -> Seq<MemberModel> {
    members.filter(|m: MemberModel| m.collection_id != col)
}

/// The collections but collection `id`.
pub open spec fn collections_without(cols: Seq<CollectionModel>, id: Seq<char>) -> Seq<
    CollectionModel,
> {
    cols.filter(|c: CollectionModel| c.id != id)
}

/// The ids of the clips in collection `col`, in the order they were added.
pub open spec fn member_ids(members: Seq<MemberModel>, col: Seq<char>) -> Seq<Seq<char>> {
    members.filter(|m: MemberModel| m.collection_id == col).map_values(|m: MemberModel| m.clip_id)
}

/// The number of clips in collection `col`.
pub open spec fn member_count(members: Seq<MemberModel>, col: Seq<char>) -> int {
    members.filter(|m: MemberModel| m.collection_id == col).len() as int
}

impl Collection {
    pub fn duplicate(&self) -> (r: Collection)
        ensures
            r@ == self@,
    {
        Collection {
            id: self.id.clone(),
            name: self.name.clone(),
            description: self.description.clone(),
            color: self.color.clone(),
            sort_order: self.sort_order,
            clip_count: self.clip_count,
            created_at: self.created_at,
            updated_at: self.updated_at,
        }
    }
}

impl DbState {
    fn find_collection(&self, id: &String) -> (r: bool)
        ensures
            r == has_collection_id(self@.collections, id@),
    {
        let mut i: usize = 0;
        while i < self.collections.len()
            invariant
                i <= self.collections@.len(),
                forall|k: int| 0 <= k < i ==> #[trigger] self.collections@[k].id@ != id@,
            decreases self.collections.len() - i,
        {
            if self.collections[i].id == *id {
                assert(self@.collections[i as int].id == id@);
                return true;
            }
            i = i + 1;
        }
        false
    }

    fn find_member(&self, col: &String, clip: &String) -> (r: bool)
        ensures
            r == is_member(self@.members, col@, clip@),
    {
        let mut i: usize = 0;
        while i < self.members.len()
            invariant
                i <= self.members@.len(),
                forall|k: int|
                    0 <= k < i ==> !(#[trigger] self.members@[k].collection_id@ == col@
                        && self.members@[k].clip_id@ == clip@),
            decreases self.members.len() - i,
        {
            if self.members[i].collection_id == *col && self.members[i].clip_id == *clip {
                assert(self@.members[i as int].collection_id == col@);
                return true;
            }
            i = i + 1;
        }
        false
    }

    fn count_members(&self, col: &String) -> (r: i64)
        ensures
            r == count_i64(member_count(self@.members, col@)),
    {
        let ghost s = self@.members;
        let mut n: u64 = 0;
        let mut i: usize = 0;
        while i < self.members.len()
            invariant
                i <= self.members@.len(),
                s == self@.members,
                n as int == s.subrange(0, i as int).filter(
                    |m: MemberModel| m.collection_id == col@,
                ).len(),
            decreases self.members.len() - i,
        {
            proof {
                lemma_filter_step(s, i as int, |m: MemberModel| m.collection_id == col@);
                s.subrange(0, i as int).filter(|m: MemberModel| m.collection_id == col@).lemma_filter_len(
                    |m: MemberModel| m.collection_id == col@,
                );
                assert(s[i as int] == self.members@[i as int]@);
            }
            if self.members[i].collection_id == *col {
                n = n + 1;
            }
            i = i + 1;
        }
        assert(s.subrange(0, i as int) =~= s);
        if n > i64::MAX as u64 {
            i64::MAX
        } else {
            n as i64
        }
    }

    /// Every collection, in order of name, each with its number of clips.
    pub fn get_all_collections(&self) -> (r: Result<Vec<Collection>, String>)
        ensures
            r matches Ok(v) && v@.len() == self@.collections.len() && forall|i: int|
                0 <= i < v@.len() ==> #[trigger] v@[i]@ == (CollectionModel {
                    clip_count: count_i64(member_count(self@.members, self@.collections[i].id)),
                    ..self@.collections[i]
                }),
    {
        let mut out: Vec<Collection> = Vec::new();
        let mut i: usize = 0;
        while i < self.collections.len()
            invariant
                i <= self.collections@.len(),
                out@.len() == i,
                forall|k: int|
                    0 <= k < i ==> #[trigger] out@[k]@ == (CollectionModel {
                        clip_count: count_i64(member_count(self@.members, self@.collections[k].id)),
                        ..self@.collections[k]
                    }),
            decreases self.collections.len() - i,
        {
            let mut c = self.collections[i].duplicate();
            c.clip_count = self.count_members(&c.id);
            out.push(c);
            i = i + 1;
        }
        Ok(out)
    }

    /// Creates an empty collection; an id that is taken is refused and
    /// nothing changes.
    pub fn create_collection(&mut self, id: &str, name: &str, color: &str) -> (r: Result<
        Collection,
        String,
    >)
        requires
            old(self)@.inv(),
        ensures
            final(self)@.inv(),
            r is Err <==> has_collection_id(old(self)@.collections, id@),
            r is Err ==> final(self)@ == old(self)@,
            r matches Ok(c) ==> c@ == (CollectionModel {
                id: id@,
                name: name@,
                description: Seq::empty(),
                color: color@,
                sort_order: 0,
                clip_count: 0,
                created_at: c.created_at,
                updated_at: c.created_at,
            }) && final(self)@ == (Catalog {
                collections: old(self)@.collections.insert(
                    name_pos(collection_names(old(self)@.collections), name@),
                    c@,
                ),
                ..old(self)@
            }),
    {
        let id_s = id.to_owned();
        if self.find_collection(&id_s) {
            return Err("UNIQUE constraint failed: collections.id".to_owned());
        }
        let now = now_seconds();
        let ghost old_view = self@;
        let ghost names = collection_names(old_view.collections);
        let mut p: usize = 0;
        while p < self.collections.len() && !text_less(name, self.collections[p].name.as_str())
            invariant
                p <= self.collections@.len(),
                self@ == old_view,
                names == collection_names(old_view.collections),
                forall|k: int| 0 <= k < p ==> !text_lt(name@, #[trigger] names[k]),
            decreases self.collections.len() - p,
        {
            assert(names[p as int] == self.collections@[p as int]@.name);
            p = p + 1;
        }
        proof {
            if p < self.collections@.len() {
                assert(names[p as int] == self.collections@[p as int]@.name);
            }
            lemma_name_pos(names, name@, p as int);
            lemma_insert_ascending(names, name@, p as int);
        }
        let row = Collection {
            id: id_s.clone(),
            name: name.to_owned(),
            description: String::new(),
            color: color.to_owned(),
            sort_order: 0,
            clip_count: 0,
            created_at: now,
            updated_at: now,
        };
        let out = row.duplicate();
        self.collections.insert(p, row);
        proof {
            let n = self@.collections;
            let o = old_view.collections;
            assert(n =~= o.insert(p as int, out@));
            assert(collection_names(n) =~= names.insert(p as int, name@));
            assert forall|x: Seq<char>| has_collection_id(o, x) implies has_collection_id(n, x) by {
                let k = choose|k: int| 0 <= k < o.len() && #[trigger] o[k].id == x;
                if k < p {
                    assert(n[k] == o[k]);
                } else {
                    assert(n[k + 1] == o[k]);
                }
            }
            assert forall|a: int, b: int| 0 <= a < b < n.len() implies #[trigger] n[a].id
                != #[trigger] n[b].id by {
                if a == p {
                    assert(n[b] == o[b - 1]);
                    assert(o[b - 1].id != id@);
                } else if b == p {
                    assert(n[a] == o[a]);
                    assert(o[a].id != id@);
                } else {
                    let oa = if a < p {
                        a
                    } else {
                        a - 1
                    };
                    let ob = if b < p {
                        b
                    } else {
                        b - 1
                    };
                    assert(n[a] == o[oa] && n[b] == o[ob]);
                }
            }
            assert(self@ == (Catalog { collections: n, ..old_view }));
            assert forall|a: int| 0 <= a < self@.members.len() implies has_collection_id(
                n,
                #[trigger] self@.members[a].collection_id,
            ) && has_clip_id(self@.clips, self@.members[a].clip_id) by {
                assert(has_collection_id(o, old_view.members[a].collection_id));
            }
        }
        Ok(out)
    }

    /// Deletes collection `id` and its memberships; the clips stay.
    pub fn delete_collection(&mut self, id: &str) -> (r: Result<(), String>)
        requires
            old(self)@.inv(),
        ensures
            r is Ok,
            final(self)@.inv(),
            final(self)@ == (Catalog {
                collections: collections_without(old(self)@.collections, id@),
                members: members_outside(old(self)@.members, id@),
                ..old(self)@
            }),
    {
        let ghost old_view = self@;
        let id_s = id.to_owned();
        let mut cols: Vec<Collection> = Vec::new();
        let mut i: usize = 0;
        while i < self.collections.len()
            invariant
                i <= self.collections@.len(),
                self@ == old_view,
                id_s@ == id@,
                cols@.map_values(|c: Collection| c@) == collections_without(
                    old_view.collections.subrange(0, i as int),
                    id@,
                ),
            decreases self.collections.len() - i,
        {
            proof {
                lemma_filter_step(old_view.collections, i as int, |c: CollectionModel| c.id != id@);
            }
            let ghost before = cols@.map_values(|c: Collection| c@);
            assert(old_view.collections[i as int] == self.collections@[i as int]@);
            if self.collections[i].id != id_s {
                cols.push(self.collections[i].duplicate());
                assert(cols@.map_values(|c: Collection| c@) =~= before.push(
                    old_view.collections[i as int],
                ));
            }
            i = i + 1;
        }
        assert(old_view.collections.subrange(0, i as int) =~= old_view.collections);
        let mut mems: Vec<Member> = Vec::new();
        let mut j: usize = 0;
        while j < self.members.len()
            invariant
                j <= self.members@.len(),
                self@ == old_view,
                id_s@ == id@,
                mems@.map_values(|m: Member| m@) == members_outside(
                    old_view.members.subrange(0, j as int),
                    id@,
                ),
            decreases self.members.len() - j,
        {
            proof {
                lemma_filter_step(old_view.members, j as int, |m: MemberModel| m.collection_id != id@);
            }
            let ghost before = mems@.map_values(|m: Member| m@);
            assert(old_view.members[j as int] == self.members@[j as int]@);
            if self.members[j].collection_id != id_s {
                mems.push(self.members[j].duplicate());
                assert(mems@.map_values(|m: Member| m@) =~= before.push(old_view.members[j as int]));
            }
            j = j + 1;
        }
        assert(old_view.members.subrange(0, j as int) =~= old_view.members);
        self.collections = cols;
        self.members = mems;
        proof {
            broadcast use group_filter_ensures;

            let n = self@;
            let pc = |c: CollectionModel| c.id != id@;
            let pm = |m: MemberModel| m.collection_id != id@;
            lemma_filter_positions(old_view.collections, pc);
            lemma_filter_positions(old_view.members, pm);
            lemma_filter_ascending(old_view.collections, pc, |c: CollectionModel| c.name);
            assert(collection_names(old_view.collections) =~= old_view.collections.map_values(
                |c: CollectionModel| c.name,
            ));
            assert(collection_names(n.collections) =~= n.collections.map_values(|c: CollectionModel| c.name));
            assert forall|a: int, b: int| 0 <= a < b < n.collections.len() implies #[trigger] n.collections[a].id
                != #[trigger] n.collections[b].id by {
                assert(kept_index(old_view.collections, pc, a) < kept_index(old_view.collections, pc, b));
            }
            assert forall|a: int, b: int| 0 <= a < b < n.members.len() implies !(#[trigger] n.members[a].collection_id
                == #[trigger] n.members[b].collection_id && n.members[a].clip_id == n.members[b].clip_id) by {
                assert(kept_index(old_view.members, pm, a) < kept_index(old_view.members, pm, b));
            }
            assert forall|a: int| 0 <= a < n.members.len() implies has_collection_id(
                n.collections,
                #[trigger] n.members[a].collection_id,
            ) && has_clip_id(n.clips, n.members[a].clip_id) by {
                let k = kept_index(old_view.members, pm, a);
                let m = old_view.members[k];
                assert(n.members[a] == m);
                assert(has_collection_id(old_view.collections, m.collection_id));
                let q = choose|q: int|
                    0 <= q < old_view.collections.len() && #[trigger] old_view.collections[q].id
                        == m.collection_id;
                assert(pc(old_view.collections[q]));
                assert(n.collections.contains(old_view.collections[q]));
                let w = choose|w: int| 0 <= w < n.collections.len() && n.collections[w] == old_view.collections[q];
                assert(n.collections[w].id == m.collection_id);
            }
        }
        Ok(())
    }

    /// Adds the listed clips to collection `col_id`, all or none: where the
    /// collection or one of the clips does not exist, nothing changes.
    pub fn add_clips_to_collection(&mut self, collection_id: &str, clip_ids: &[String]) -> (r:
        Result<(), String>)
        requires
            old(self)@.inv(),
        ensures
            final(self)@.inv(),
            r is Err <==> !has_collection_id(old(self)@.collections, collection_id@)
                || !all_clips_exist(old(self)@.clips, strings_view(clip_ids@)),
            r is Err ==> final(self)@ == old(self)@,
            r is Ok ==> exists|at: i64|
                final(self)@ == (Catalog {
                    members: #[trigger] joined(
                        old(self)@.members,
                        collection_id@,
                        strings_view(clip_ids@),
                        at,
                    ),
                    ..old(self)@
                }),
    {
        let col = collection_id.to_owned();
        if !self.find_collection(&col) || !self.all_clips_exist(clip_ids) {
            return Err("FOREIGN KEY constraint failed".to_owned());
        }
        let now = now_seconds();
        let ghost old_view = self@;
        let ghost sv = strings_view(clip_ids@);
        let mut i: usize = 0;
        while i < clip_ids.len()
            invariant
                i <= clip_ids@.len(),
                sv == strings_view(clip_ids@),
                col@ == collection_id@,
                old_view.inv(),
                has_collection_id(old_view.collections, col@),
                all_clips_exist(old_view.clips, sv),
                self@.inv(),
                self@ == (Catalog { members: self@.members, ..old_view }),
                self@.members == joined(old_view.members, col@, sv.subrange(0, i as int), now),
            decreases clip_ids.len() - i,
        {
            let ghost before = self@.members;
            proof {
                assert(sv.subrange(0, i + 1).drop_last() =~= sv.subrange(0, i as int));
                assert(sv.subrange(0, i + 1).last() == sv[i as int]);
                assert(has_clip_id(old_view.clips, sv[i as int]));
            }
            if !self.find_member(&col, &clip_ids[i]) {
                let m = Member {
                    collection_id: col.clone(),
                    clip_id: clip_ids[i].clone(),
                    sort_order: 0,
                    added_at: now,
                };
                self.members.push(m);
                proof {
                    let n = self@.members;
                    assert(n =~= before.push(
                        MemberModel { collection_id: col@, clip_id: sv[i as int], sort_order: 0, added_at: now },
                    ));
                    assert forall|a: int, b: int| 0 <= a < b < n.len() implies !(#[trigger] n[a].collection_id
                        == #[trigger] n[b].collection_id && n[a].clip_id == n[b].clip_id) by {
                        if b == n.len() - 1 && n[a].collection_id == n[b].collection_id && n[a].clip_id == n[b].clip_id {
                            assert(is_member(before, col@, sv[i as int]));
                        }
                    }
                }
            }
            i = i + 1;
        }
        assert(sv.subrange(0, i as int) =~= sv);
        Ok(())
    }

    /// Takes the listed clips out of collection `collection_id`.
    pub fn remove_clips_from_collection(&mut self, collection_id: &str, clip_ids: &[String]) -> (r:
        Result<(), String>)
        requires
            old(self)@.inv(),
        ensures
            r is Ok,
            final(self)@.inv(),
            final(self)@ == (Catalog {
                members: left(old(self)@.members, collection_id@, strings_view(clip_ids@)),
                ..old(self)@
            }),
    {
        let ghost old_view = self@;
        let ghost sv = strings_view(clip_ids@);
        let col = collection_id.to_owned();
        let mut mems: Vec<Member> = Vec::new();
        let mut j: usize = 0;
        while j < self.members.len()
            invariant
                j <= self.members@.len(),
                self@ == old_view,
                col@ == collection_id@,
                sv == strings_view(clip_ids@),
                mems@.map_values(|m: Member| m@) == left(
                    old_view.members.subrange(0, j as int),
                    col@,
                    sv,
                ),
            decreases self.members.len() - j,
        {
            proof {
                lemma_filter_step(
                    old_view.members,
                    j as int,
                    |m: MemberModel| !(m.collection_id == col@ && sv.contains(m.clip_id)),
                );
            }
            let ghost before = mems@.map_values(|m: Member| m@);
            assert(old_view.members[j as int] == self.members@[j as int]@);
            if !(self.members[j].collection_id == col && contains_string(clip_ids, &self.members[j].clip_id)) {
                mems.push(self.members[j].duplicate());
                assert(mems@.map_values(|m: Member| m@) =~= before.push(old_view.members[j as int]));
            }
            j = j + 1;
        }
        assert(old_view.members.subrange(0, j as int) =~= old_view.members);
        self.members = mems;
        proof {
            broadcast use group_filter_ensures;

            let n = self@;
            let pm = |m: MemberModel| !(m.collection_id == col@ && sv.contains(m.clip_id));
            lemma_filter_positions(old_view.members, pm);
            assert forall|a: int, b: int| 0 <= a < b < n.members.len() implies !(#[trigger] n.members[a].collection_id
                == #[trigger] n.members[b].collection_id && n.members[a].clip_id == n.members[b].clip_id) by {
                assert(kept_index(old_view.members, pm, a) < kept_index(old_view.members, pm, b));
            }
            assert forall|a: int| 0 <= a < n.members.len() implies has_collection_id(
                n.collections,
                #[trigger] n.members[a].collection_id,
            ) && has_clip_id(n.clips, n.members[a].clip_id) by {
                let k = kept_index(old_view.members, pm, a);
                assert(n.members[a] == old_view.members[k]);
            }
        }
        Ok(())
    }

    /// The ids of the clips in collection `collection_id`, in the order they
    /// were added.
    pub fn get_collection_clip_ids(&self, collection_id: &str) -> (r: Result<Vec<String>, String>)
        ensures
            r matches Ok(v) && strings_view(v@) == member_ids(self@.members, collection_id@),
    {
        let ghost s = self@.members;
        let col = collection_id.to_owned();
        let mut out: Vec<String> = Vec::new();
        let mut i: usize = 0;
        while i < self.members.len()
            invariant
                i <= self.members@.len(),
                s == self@.members,
                col@ == collection_id@,
                strings_view(out@) == member_ids(s.subrange(0, i as int), col@),
            decreases self.members.len() - i,
        {
            proof {
                lemma_filter_step(s, i as int, |m: MemberModel| m.collection_id == col@);
            }
            let ghost before = strings_view(out@);
            assert(s[i as int] == self.members@[i as int]@);
            if self.members[i].collection_id == col {
                out.push(self.members[i].clip_id.clone());
                assert(strings_view(out@) =~= before.push(s[i as int].clip_id));
            }
            i = i + 1;
        }
        assert(s.subrange(0, i as int) =~= s);
        Ok(out)
    }
}

/// The smart folders after giving folder `id` a new name, color and rules
/// at time `at`; the folder moves to its place in the order of names.
pub open spec fn folders_updated(
    folders: Seq<SmartFolderModel>,
    id: Seq<char>,
    name: Seq<char>,
    color: Seq<char>,
    rules: Seq<char>,
    at: i64,
) -> Seq<SmartFolderModel> {
    if has_folder_id(folders, id) {
        let i = choose|i: int| 0 <= i < folders.len() && #[trigger] folders[i].id == id;
        let row = SmartFolderModel { name: name, color: color, rules: rules, updated_at: at, ..folders[i] };
        let rest = folders.remove(i);
        rest.insert(name_pos(folder_names(rest), name), row)
    } else {
        folders
    }
}

/// Taking out one name keeps the rest in order.
proof fn lemma_remove_ascending(names: Seq<Seq<char>>, i: int)
    requires
        ascending(names),
        0 <= i < names.len(),
    ensures
        ascending(names.remove(i)),
{
    let m = names.remove(i);
    assert forall|a: int, b: int| 0 <= a < b < m.len() implies !text_lt(#[trigger] m[b], #[trigger] m[a]) by {
        let oa = if a < i {
            a
        } else {
            a + 1
        };
        let ob = if b < i {
            b
        } else {
            b + 1
        };
        assert(m[a] == names[oa] && m[b] == names[ob]);
    }
}

/// The smart folders but folder `id`.
pub open spec fn folders_without(folders: Seq<SmartFolderModel>, id: Seq<char>) -> Seq<
    SmartFolderModel,
> {
    folders.filter(|f: SmartFolderModel| f.id != id)
}

/// The cached artifacts after storing `data` for `clip` at time `at`: the
/// clip's row is overwritten if it has one, else a row is added.
pub open spec fn upserted(
    rows: Seq<ArtifactModel>,
    clip: Seq<char>,
    data: Seq<u8>,
    count: i32,
    at: i64,
) -> Seq<ArtifactModel> {
    if has_artifact(rows, clip) {
        rows.map_values(
            |a: ArtifactModel|
                if a.clip_id == clip {
                    ArtifactModel { data: data, count: count, updated_at: at, ..a }
                } else {
                    a
                },
        )
    } else {
        rows.push(ArtifactModel { clip_id: clip, data: data, count: count, updated_at: at })
    }
}

/// No two cached artifacts belong to one clip.
pub open spec fn one_per_clip(rows: Seq<ArtifactModel>) -> bool {
    forall|a: int, b: int| 0 <= a < b < rows.len() ==> #[trigger] rows[a].clip_id != #[trigger] rows[b].clip_id
}

/// The bytes cached for `clip`, if any.
pub open spec fn artifact_of(rows: Seq<ArtifactModel>, clip: Seq<char>) -> Option<Seq<u8>> {
    if has_artifact(rows, clip) {
        Some(rows[choose|i: int| 0 <= i < rows.len() && #[trigger] rows[i].clip_id == clip].data)
    } else {
        None
    }
}

/// The value stored under `key`, if any.
pub open spec fn meta_value(meta: Seq<(Seq<char>, Seq<char>)>, key: Seq<char>) -> Option<Seq<char>> {
    if has_meta_key(meta, key) {
        Some(meta[choose|i: int| 0 <= i < meta.len() && #[trigger] meta[i].0 == key].1)
    } else {
        None
    }
}

/// The key-value table after storing `value` under `key`.
pub open spec fn meta_set(meta: Seq<(Seq<char>, Seq<char>)>, key: Seq<char>, value: Seq<char>) -> Seq<
    (Seq<char>, Seq<char>),
> {
    if has_meta_key(meta, key) {
        meta.map_values(
            |e: (Seq<char>, Seq<char>)|
                if e.0 == key {
                    (key, value)
                } else {
                    e
                },
        )
    } else {
        meta.push((key, value))
    }
}

proof fn lemma_unique_index_artifact(rows: Seq<ArtifactModel>, clip: Seq<char>, i: int)
    requires
        0 <= i < rows.len(),
        rows[i].clip_id == clip,
        one_per_clip(rows),
    ensures
        artifact_of(rows, clip) == Some(rows[i].data),
{
    let j = choose|j: int| 0 <= j < rows.len() && #[trigger] rows[j].clip_id == clip;
    assert(i == j);
}

proof fn lemma_unique_index_meta(meta: Seq<(Seq<char>, Seq<char>)>, key: Seq<char>, i: int)
    requires
        0 <= i < meta.len(),
        meta[i].0 == key,
        forall|a: int, b: int| 0 <= a < b < meta.len() ==> #[trigger] meta[a].0 != #[trigger] meta[b].0,
    ensures
        meta_value(meta, key) == Some(meta[i].1),
{
    let j = choose|j: int| 0 <= j < meta.len() && #[trigger] meta[j].0 == key;
    assert(i == j);
}

impl SmartFolder {
    pub fn duplicate(&self) -> (r: SmartFolder)
        ensures
            r@ == self@,
    {
        SmartFolder {
            id: self.id.clone(),
            name: self.name.clone(),
            color: self.color.clone(),
            rules: self.rules.clone(),
            created_at: self.created_at,
            updated_at: self.updated_at,
        }
    }
}

/// Stores `data` for `clip` in `rows`, overwriting the clip's row if it has one.
fn upsert_artifact(rows: &mut Vec<Artifact>, clip: &String, data: &[u8], count: i32, at: i64)
    requires
        one_per_clip(old(rows)@.map_values(|a: Artifact| a@)),
    ensures
        final(rows)@.map_values(|a: Artifact| a@) == upserted(
            old(rows)@.map_values(|a: Artifact| a@),
            clip@,
            data@,
            count,
            at,
        ),
        one_per_clip(final(rows)@.map_values(|a: Artifact| a@)),
{
    let ghost s = old(rows)@.map_values(|a: Artifact| a@);
    let mut bytes: Vec<u8> = Vec::new();
    let mut k: usize = 0;
    while k < data.len()
        invariant
            k <= data@.len(),
            bytes@ == data@.subrange(0, k as int),
        decreases data.len() - k,
    {
        bytes.push(data[k]);
        k = k + 1;
        assert(bytes@ =~= data@.subrange(0, k as int));
    }
    assert(bytes@ =~= data@);
    let mut i: usize = 0;
    while i < rows.len()
        invariant
            i <= rows@.len(),
            rows@ == old(rows)@,
            s == old(rows)@.map_values(|a: Artifact| a@),
            one_per_clip(s),
            bytes@ == data@,
            forall|k: int| 0 <= k < i ==> #[trigger] rows@[k]@.clip_id != clip@,
        decreases rows.len() - i,
    {
        if rows[i].clip_id == *clip {
            let row = Artifact { clip_id: clip.clone(), data: bytes, count, updated_at: at };
            rows.set(i, row);
            proof {
                assert(has_artifact(s, clip@)) by {
                    assert(s[i as int].clip_id == clip@);
                }
                let n = rows@.map_values(|a: Artifact| a@);
                assert(s[i as int].clip_id == clip@);
                assert forall|k: int| 0 <= k < n.len() implies n[k] == (if s[k].clip_id == clip@ {
                    ArtifactModel { data: data@, count: count, updated_at: at, ..s[k] }
                } else {
                    s[k]
                }) by {
                    if k < i {
                        assert(s[k].clip_id != s[i as int].clip_id);
                    } else if k > i {
                        assert(s[i as int].clip_id != s[k].clip_id);
                    }
                }
                assert(n =~= upserted(s, clip@, data@, count, at));
                assert forall|a: int, b: int| 0 <= a < b < n.len() implies #[trigger] n[a].clip_id
                    != #[trigger] n[b].clip_id by {
                    assert(s[a].clip_id != s[b].clip_id);
                }
            }
            return;
        }
        i = i + 1;
    }
    proof {
        assert(!has_artifact(s, clip@)) by {
            if has_artifact(s, clip@) {
                let k = choose|k: int| 0 <= k < s.len() && #[trigger] s[k].clip_id == clip@;
                assert(rows@[k]@.clip_id == clip@);
            }
        }
    }
    rows.push(Artifact { clip_id: clip.clone(), data: bytes, count, updated_at: at });
    proof {
        let n = rows@.map_values(|a: Artifact| a@);
        assert(n =~= upserted(s, clip@, data@, count, at));
        assert forall|a: int, b: int| 0 <= a < b < n.len() implies #[trigger] n[a].clip_id
            != #[trigger] n[b].clip_id by {
            if b == n.len() - 1 {
                assert(rows@[a]@.clip_id != clip@);
            }
        }
    }
}

fn artifact_bytes(rows: &Vec<Artifact>, clip: &String) -> (r: Option<Vec<u8>>)
    requires
        one_per_clip(rows@.map_values(|a: Artifact| a@)),
    ensures
        match r {
            Some(v) => artifact_of(rows@.map_values(|a: Artifact| a@), clip@) == Some(v@),
            None => artifact_of(rows@.map_values(|a: Artifact| a@), clip@) is None,
        },
{
    let ghost s = rows@.map_values(|a: Artifact| a@);
    let mut i: usize = 0;
    while i < rows.len()
        invariant
            i <= rows@.len(),
            s == rows@.map_values(|a: Artifact| a@),
            one_per_clip(s),
            forall|k: int| 0 <= k < i ==> #[trigger] rows@[k]@.clip_id != clip@,
        decreases rows.len() - i,
    {
        if rows[i].clip_id == *clip {
            proof {
                assert(s[i as int] == rows@[i as int]@);
                lemma_unique_index_artifact(s, clip@, i as int);
            }
            return Some(copy_bytes(&rows[i].data));
        }
        i = i + 1;
    }
    proof {
        if has_artifact(s, clip@) {
            let k = choose|k: int| 0 <= k < s.len() && #[trigger] s[k].clip_id == clip@;
            assert(rows@[k]@.clip_id == clip@);
        }
    }
    None
}

impl DbState {
    fn find_folder(&self, id: &String) -> (r: Option<usize>)
        ensures
            match r {
                Some(i) => i < self@.folders.len() && self@.folders[i as int].id == id@,
                None => !has_folder_id(self@.folders, id@),
            },
    {
        let mut i: usize = 0;
        while i < self.folders.len()
            invariant
                i <= self.folders@.len(),
                forall|k: int| 0 <= k < i ==> #[trigger] self.folders@[k].id@ != id@,
            decreases self.folders.len() - i,
        {
            if self.folders[i].id == *id {
                return Some(i);
            }
            i = i + 1;
        }
        None
    }

    /// Where a folder named `name` goes: after every folder whose name does
    /// not sort after it.
    fn folder_slot(&self, name: &str) -> (r: usize)
        requires
            ascending(folder_names(self@.folders)),
        ensures
            r as int == name_pos(folder_names(self@.folders), name@),
            r <= self@.folders.len(),
            forall|k: int| 0 <= k < r ==> !text_lt(name@, #[trigger] folder_names(self@.folders)[k]),
            r == self@.folders.len() || text_lt(name@, folder_names(self@.folders)[r as int]),
    {
        let ghost names = folder_names(self@.folders);
        let mut p: usize = 0;
        while p < self.folders.len() && !text_less(name, self.folders[p].name.as_str())
            invariant
                p <= self.folders@.len(),
                names == folder_names(self@.folders),
                forall|k: int| 0 <= k < p ==> !text_lt(name@, #[trigger] names[k]),
            decreases self.folders.len() - p,
        {
            assert(names[p as int] == self.folders@[p as int]@.name);
            p = p + 1;
        }
        proof {
            if p < self.folders@.len() {
                assert(names[p as int] == self.folders@[p as int]@.name);
            }
            lemma_name_pos(names, name@, p as int);
        }
        p
    }

    /// Every smart folder, in order of name.
    pub fn get_all_smart_folders(&self) -> (r: Result<Vec<SmartFolder>, String>)
        ensures
            r matches Ok(v) && v@.map_values(|f: SmartFolder| f@) == self@.folders,
    {
        let mut out: Vec<SmartFolder> = Vec::new();
        let mut i: usize = 0;
        while i < self.folders.len()
            invariant
                i <= self.folders@.len(),
                out@.len() == i,
                forall|k: int| 0 <= k < i ==> #[trigger] out@[k]@ == self.folders@[k]@,
            decreases self.folders.len() - i,
        {
            out.push(self.folders[i].duplicate());
            i = i + 1;
        }
        assert(out@.map_values(|f: SmartFolder| f@) =~= self@.folders);
        Ok(out)
    }

    /// Creates a smart folder with the given rules; an id that is taken is
    /// refused and nothing changes.
    pub fn create_smart_folder(&mut self, id: &str, name: &str, color: &str, rules: &str) -> (r:
        Result<SmartFolder, String>)
        requires
            old(self)@.inv(),
        ensures
            final(self)@.inv(),
            r is Err <==> has_folder_id(old(self)@.folders, id@),
            r is Err ==> final(self)@ == old(self)@,
            r matches Ok(f) ==> f@ == (SmartFolderModel {
                id: id@,
                name: name@,
                color: color@,
                rules: rules@,
                created_at: f.created_at,
                updated_at: f.created_at,
            }) && final(self)@ == (Catalog {
                folders: old(self)@.folders.insert(name_pos(folder_names(old(self)@.folders), name@), f@),
                ..old(self)@
            }),
    {
        let id_s = id.to_owned();
        if self.find_folder(&id_s).is_some() {
            return Err("UNIQUE constraint failed: smart_folders.id".to_owned());
        }
        let now = now_seconds();
        let ghost old_view = self@;
        let row = SmartFolder {
            id: id_s,
            name: name.to_owned(),
            color: color.to_owned(),
            rules: rules.to_owned(),
            created_at: now,
            updated_at: now,
        };
        let out = row.duplicate();
        let p = self.folder_slot(name);
        self.folders.insert(p, row);
        proof {
            let n = self@.folders;
            let o = old_view.folders;
            assert(n =~= o.insert(p as int, out@));
            assert(folder_names(n) =~= folder_names(o).insert(p as int, name@));
            lemma_insert_ascending(folder_names(o), name@, p as int);
            assert forall|a: int, b: int| 0 <= a < b < n.len() implies #[trigger] n[a].id
                != #[trigger] n[b].id by {
                if a == p {
                    assert(n[b] == o[b - 1]);
                    assert(o[b - 1].id != id@);
                } else if b == p {
                    assert(n[a] == o[a]);
                    assert(o[a].id != id@);
                } else {
                    let oa = if a < p {
                        a
                    } else {
                        a - 1
                    };
                    let ob = if b < p {
                        b
                    } else {
                        b - 1
                    };
                    assert(n[a] == o[oa] && n[b] == o[ob]);
                }
            }
            assert(self@ == (Catalog { folders: n, ..old_view }));
        }
        Ok(out)
    }

    /// Renames smart folder `id` and replaces its color and rules.
    pub fn update_smart_folder(&mut self, id: &str, name: &str, color: &str, rules: &str) -> (r:
        Result<(), String>)
        requires
            old(self)@.inv(),
        ensures
            r is Ok,
            final(self)@.inv(),
            exists|at: i64|
                final(self)@ == (Catalog {
                    folders: #[trigger] folders_updated(
                        old(self)@.folders,
                        id@,
                        name@,
                        color@,
                        rules@,
                        at,
                    ),
                    ..old(self)@
                }),
    {
        let now = now_seconds();
        let ghost old_view = self@;
        let id_s = id.to_owned();
        match self.find_folder(&id_s) {
            None => {
                assert(self@.folders == folders_updated(old_view.folders, id@, name@, color@, rules@, now));
            },
            Some(i) => {
                let ghost o = old_view.folders;
                proof {
                    let j = choose|j: int| 0 <= j < o.len() && #[trigger] o[j].id == id@;
                    if j < i {
                        assert(o[j].id != o[i as int].id);
                    } else if j > i {
                        assert(o[i as int].id != o[j].id);
                    }
                }
                let mut f = self.folders[i].duplicate();
                f.name = name.to_owned();
                f.color = color.to_owned();
                f.rules = rules.to_owned();
                f.updated_at = now;
                let ghost row = f@;
                let _ = self.folders.remove(i);
                let ghost rest = o.remove(i as int);
                proof {
                    assert(self@.folders =~= rest);
                    assert(folder_names(rest) =~= folder_names(o).remove(i as int));
                    lemma_remove_ascending(folder_names(o), i as int);
                }
                let p = self.folder_slot(name);
                self.folders.insert(p, f);
                proof {
                    let n = self@.folders;
                    assert(n =~= rest.insert(p as int, row));
                    assert(folder_names(n) =~= folder_names(rest).insert(p as int, name@));
                    lemma_insert_ascending(folder_names(rest), name@, p as int);
                    assert forall|a: int, b: int| 0 <= a < b < rest.len() implies #[trigger] rest[a].id
                        != #[trigger] rest[b].id by {
                        let oa = if a < i {
                            a
                        } else {
                            a + 1
                        };
                        let ob = if b < i {
                            b
                        } else {
                            b + 1
                        };
                        assert(rest[a] == o[oa] && rest[b] == o[ob]);
                    }
                    assert forall|a: int| 0 <= a < rest.len() implies #[trigger] rest[a].id != id@ by {
                        let oa = if a < i {
                            a
                        } else {
                            a + 1
                        };
                        assert(rest[a] == o[oa]);
                        if oa < i {
                            assert(o[oa].id != o[i as int].id);
                        } else {
                            assert(o[i as int].id != o[oa].id);
                        }
                    }
                    assert forall|a: int, b: int| 0 <= a < b < n.len() implies #[trigger] n[a].id
                        != #[trigger] n[b].id by {
                        if a == p {
                            assert(n[b] == rest[b - 1]);
                        } else if b == p {
                            assert(n[a] == rest[a]);
                        } else {
                            let oa = if a < p {
                                a
                            } else {
                                a - 1
                            };
                            let ob = if b < p {
                                b
                            } else {
                                b - 1
                            };
                            assert(n[a] == rest[oa] && n[b] == rest[ob]);
                        }
                    }
                    assert(n == folders_updated(o, id@, name@, color@, rules@, now));
                }
            },
        }
        assert(self@ == (Catalog {
            folders: folders_updated(old_view.folders, id@, name@, color@, rules@, now),
            ..old_view
        }));
        Ok(())
    }

    /// Deletes smart folder `id`.
    pub fn delete_smart_folder(&mut self, id: &str) -> (r: Result<(), String>)
        requires
            old(self)@.inv(),
        ensures
            r is Ok,
            final(self)@.inv(),
            final(self)@ == (Catalog { folders: folders_without(old(self)@.folders, id@), ..old(self)@ }),
    {
        let ghost old_view = self@;
        let id_s = id.to_owned();
        let mut kept: Vec<SmartFolder> = Vec::new();
        let mut i: usize = 0;
        while i < self.folders.len()
            invariant
                i <= self.folders@.len(),
                self@ == old_view,
                id_s@ == id@,
                kept@.map_values(|f: SmartFolder| f@) == folders_without(
                    old_view.folders.subrange(0, i as int),
                    id@,
                ),
            decreases self.folders.len() - i,
        {
            proof {
                lemma_filter_step(old_view.folders, i as int, |f: SmartFolderModel| f.id != id@);
            }
            let ghost before = kept@.map_values(|f: SmartFolder| f@);
            assert(old_view.folders[i as int] == self.folders@[i as int]@);
            if self.folders[i].id != id_s {
                kept.push(self.folders[i].duplicate());
                assert(kept@.map_values(|f: SmartFolder| f@) =~= before.push(old_view.folders[i as int]));
            }
            i = i + 1;
        }
        assert(old_view.folders.subrange(0, i as int) =~= old_view.folders);
        self.folders = kept;
        proof {
            let p = |f: SmartFolderModel| f.id != id@;
            lemma_filter_positions(old_view.folders, p);
            lemma_filter_ascending(old_view.folders, p, |f: SmartFolderModel| f.name);
            assert(folder_names(old_view.folders) =~= old_view.folders.map_values(|f: SmartFolderModel| f.name));
            assert(folder_names(self@.folders) =~= self@.folders.map_values(|f: SmartFolderModel| f.name));
            let n = self@.folders;
            assert forall|a: int, b: int| 0 <= a < b < n.len() implies #[trigger] n[a].id
                != #[trigger] n[b].id by {
                assert(kept_index(old_view.folders, p, a) < kept_index(old_view.folders, p, b));
            }
        }
        Ok(())
    }

    /// The waveform cached for clip `clip_id`, if any.
    pub fn get_waveform(&self, clip_id: &str) -> (r: Result<Option<Vec<u8>>, String>)
        requires
            self@.inv(),
        ensures
            r matches Ok(o) && match o {
                Some(v) => artifact_of(self@.waveforms, clip_id@) == Some(v@),
                None => artifact_of(self@.waveforms, clip_id@) is None,
            },
    {
        let id = clip_id.to_owned();
        Ok(artifact_bytes(&self.waveforms, &id))
    }

    /// Caches the waveform of clip `clip_id`, overwriting an earlier one. A
    /// clip that does not exist is refused and nothing changes.
    pub fn save_waveform(&mut self, clip_id: &str, samples: &[u8], count: i32) -> (r: Result<
        (),
        String,
    >)
        requires
            old(self)@.inv(),
        ensures
            final(self)@.inv(),
            r is Err <==> !has_clip_id(old(self)@.clips, clip_id@),
            r is Err ==> final(self)@ == old(self)@,
            r is Ok ==> exists|at: i64|
                final(self)@ == (Catalog {
                    waveforms: #[trigger] upserted(old(self)@.waveforms, clip_id@, samples@, count, at),
                    ..old(self)@
                }),
    {
        let id = clip_id.to_owned();
        if self.find_clip_by_id(&id).is_none() {
            return Err("FOREIGN KEY constraint failed".to_owned());
        }
        let now = now_seconds();
        let ghost old_view = self@;
        assert(one_per_clip(old_view.waveforms));
        assert(one_per_clip(self.waveforms@.map_values(|a: Artifact| a@)));
        upsert_artifact(&mut self.waveforms, &id, samples, count, now);
        proof {
            assert(self@ == (Catalog { waveforms: self@.waveforms, ..old_view }));
            assert(one_per_clip(self@.waveforms));
            let n = self@.waveforms;
            assert forall|i: int| 0 <= i < n.len() implies has_clip_id(self@.clips, #[trigger] n[i].clip_id) by {
                if has_artifact(old_view.waveforms, clip_id@) {
                    assert(n[i].clip_id == old_view.waveforms[i].clip_id);
                } else if i < old_view.waveforms.len() {
                    assert(n[i] == old_view.waveforms[i]);
                }
            }
        }
        Ok(())
    }

    /// Caches the text embedding of clip `clip_id`, overwriting an earlier
    /// one. A clip that does not exist is refused and nothing changes.
    pub fn upsert_embedding(&mut self, clip_id: &str, vector: &[u8]) -> (r: Result<(), String>)
        requires
            old(self)@.inv(),
        ensures
            final(self)@.inv(),
            r is Err <==> !has_clip_id(old(self)@.clips, clip_id@),
            r is Err ==> final(self)@ == old(self)@,
            r is Ok ==> exists|at: i64|
                final(self)@ == (Catalog {
                    embeddings: #[trigger] upserted(old(self)@.embeddings, clip_id@, vector@, 0, at),
                    ..old(self)@
                }),
    {
        let id = clip_id.to_owned();
        if self.find_clip_by_id(&id).is_none() {
            return Err("FOREIGN KEY constraint failed".to_owned());
        }
        let now = now_seconds();
        let ghost old_view = self@;
        assert(one_per_clip(old_view.embeddings));
        assert(one_per_clip(self.embeddings@.map_values(|a: Artifact| a@)));
        upsert_artifact(&mut self.embeddings, &id, vector, 0, now);
        proof {
            assert(self@ == (Catalog { embeddings: self@.embeddings, ..old_view }));
            assert(one_per_clip(self@.embeddings));
            let n = self@.embeddings;
            assert forall|i: int| 0 <= i < n.len() implies has_clip_id(self@.clips, #[trigger] n[i].clip_id) by {
                if has_artifact(old_view.embeddings, clip_id@) {
                    assert(n[i].clip_id == old_view.embeddings[i].clip_id);
                } else if i < old_view.embeddings.len() {
                    assert(n[i] == old_view.embeddings[i]);
                }
            }
        }
        Ok(())
    }

    /// Every cached embedding as (clip id, bytes).
    pub fn get_all_embeddings(&self) -> (r: Result<Vec<(String, Vec<u8>)>, String>)
        ensures
            r matches Ok(v) && v@.len() == self@.embeddings.len() && forall|i: int|
                0 <= i < v@.len() ==> (#[trigger] v@[i]).0@ == self@.embeddings[i].clip_id
                    && v@[i].1@ == self@.embeddings[i].data,
    {
        let mut out: Vec<(String, Vec<u8>)> = Vec::new();
        let mut i: usize = 0;
        while i < self.embeddings.len()
            invariant
                i <= self.embeddings@.len(),
                out@.len() == i,
                forall|k: int|
                    0 <= k < i ==> (#[trigger] out@[k]).0@ == self@.embeddings[k].clip_id
                        && out@[k].1@ == self@.embeddings[k].data,
            decreases self.embeddings.len() - i,
        {
            let e = &self.embeddings[i];
            out.push((e.clip_id.clone(), copy_bytes(&e.data)));
            i = i + 1;
        }
        Ok(out)
    }

    fn find_meta(&self, key: &String) -> (r: Option<usize>)
        ensures
            match r {
                Some(i) => i < self@.meta.len() && self@.meta[i as int].0 == key@,
                None => !has_meta_key(self@.meta, key@),
            },
    {
        let mut i: usize = 0;
        while i < self.meta.len()
            invariant
                i <= self.meta@.len(),
                forall|k: int| 0 <= k < i ==> #[trigger] self.meta@[k].key@ != key@,
            decreases self.meta.len() - i,
        {
            if self.meta[i].key == *key {
                return Some(i);
            }
            i = i + 1;
        }
        None
    }

    /// The value stored under `key`, if any.
    pub fn get_meta(&self, key: &str) -> (r: Result<Option<String>, String>)
        requires
            self@.inv(),
        ensures
            r matches Ok(o) && match o {
                Some(v) => meta_value(self@.meta, key@) == Some(v@),
                None => meta_value(self@.meta, key@) is None,
            },
    {
        let k = key.to_owned();
        match self.find_meta(&k) {
            Some(i) => {
                proof {
                    lemma_unique_index_meta(self@.meta, key@, i as int);
                }
                Ok(Some(self.meta[i].value.clone()))
            },
            None => Ok(None),
        }
    }

    /// Stores `value` under `key`, replacing what was there.
    pub fn set_meta(&mut self, key: &str, value: &str) -> (r: Result<(), String>)
        requires
            old(self)@.inv(),
        ensures
            r is Ok,
            final(self)@.inv(),
            final(self)@ == (Catalog { meta: meta_set(old(self)@.meta, key@, value@), ..old(self)@ }),
    {
        let ghost old_view = self@;
        let k = key.to_owned();
        let entry = MetaEntry { key: key.to_owned(), value: value.to_owned() };
        match self.find_meta(&k) {
            Some(i) => {
                self.meta.set(i, entry);
                proof {
                    assert(has_meta_key(old_view.meta, key@));
                    let n = self@.meta;
                    assert(n =~= meta_set(old_view.meta, key@, value@));
                    assert forall|a: int, b: int| 0 <= a < b < n.len() implies #[trigger] n[a].0
                        != #[trigger] n[b].0 by {
                        assert(old_view.meta[a].0 != old_view.meta[b].0);
                    }
                }
            },
            None => {
                self.meta.push(entry);
                proof {
                    let n = self@.meta;
                    assert(n =~= meta_set(old_view.meta, key@, value@));
                    assert forall|a: int, b: int| 0 <= a < b < n.len() implies #[trigger] n[a].0
                        != #[trigger] n[b].0 by {
                        if b == n.len() - 1 {
                            assert(old_view.meta[a].0 != key@);
                        }
                    }
                }
            },
        }
        Ok(())
    }
}

/// The stored schema version: 0 where none is stored or it is no integer.
pub open spec fn stored_version(meta: Seq<(Seq<char>, Seq<char>)>) -> int {
    match meta_value(meta, version_key()) {
        Some(v) => match decimal_i64(v) {
            Some(n) => n,
            None => 0,
        },
        None => 0,
    }
}

/// The schema once the metadata table exists and the first step has run
/// where the stored version asks for it.
pub open spec fn after_first_step(c: Catalog) -> Seq<SchemaItem> {
    let s = created(c.schema, seq![SchemaItem::AppMeta]);
    if stored_version(c.meta) < 1 {
        created(s, first_step())
    } else {
        s
    }
}

/// The second step adds the star column, which fails where it exists already.
pub open spec fn second_step_fails(c: Catalog) -> bool {
    stored_version(c.meta) < 2 && after_first_step(c).contains(SchemaItem::ClipsStarredColumn)
}

/// The catalog after a successful `init`.
pub open spec fn initialized(c: Catalog) -> Catalog {
    let s = after_first_step(c);
    Catalog {
        schema: if stored_version(c.meta) < 2 {
            created(s.push(SchemaItem::ClipsStarredColumn), second_step())
        } else {
            s
        },
        meta: meta_set(c.meta, version_key(), "2"@),
        ..c
    }
}

proof fn lemma_inv_schema(a: Catalog, b: Catalog)
    requires
        a.inv(),
        b == (Catalog { schema: b.schema, ..a }),
    ensures
        b.inv(),
{
    assert(b.clips == a.clips && b.tags == a.tags && b.collections == a.collections && b.members
        == a.members && b.folders == a.folders && b.embeddings == a.embeddings && b.waveforms
        == a.waveforms && b.meta == a.meta);
}

impl DbState {
    fn contains_item(&self, item: SchemaItem) -> (r: bool)
        ensures
            r == self@.schema.contains(item),
    {
        let mut i: usize = 0;
        while i < self.schema.len()
            invariant
                i <= self.schema@.len(),
                forall|k: int| 0 <= k < i ==> self.schema@[k] != item,
            decreases self.schema.len() - i,
        {
            if self.schema[i] == item {
                return true;
            }
            i = i + 1;
        }
        false
    }

    fn create_items(&mut self, items: &Vec<SchemaItem>)
        ensures
            final(self)@ == (Catalog {
                schema: created(old(self)@.schema, items@),
                ..old(self)@
            }),
    {
        let ghost old_view = self@;
        let mut i: usize = 0;
        while i < items.len()
            invariant
                i <= items@.len(),
                self@ == (Catalog {
                    schema: created(old_view.schema, items@.subrange(0, i as int)),
                    ..old_view
                }),
            decreases items.len() - i,
        {
            proof {
                assert(items@.subrange(0, i + 1).drop_last() =~= items@.subrange(0, i as int));
                assert(items@.subrange(0, i + 1).last() == items@[i as int]);
            }
            let item = items[i];
            if !self.contains_item(item) {
                self.schema.push(item);
            }
            i = i + 1;
        }
        assert(items@.subrange(0, i as int) =~= items@);
    }

    /// Creates the schema, or brings it up to date: the metadata table
    /// first, then every migration step past the stored version, in order;
    /// then the version reached is stored. Steps only add. Where the second
    /// step meets a star column that exists already it fails, and what ran
    /// before stays.
    pub fn init(&mut self) -> (r: Result<(), String>)
        requires
            old(self)@.inv(),
        ensures
            final(self)@.inv(),
            r is Err <==> second_step_fails(old(self)@),
            r is Err ==> final(self)@ == (Catalog { schema: after_first_step(old(self)@), ..old(self)@ }),
            r is Ok ==> final(self)@ == initialized(old(self)@),
    {
        let ghost old_view = self@;
        let meta_table = vec![SchemaItem::AppMeta];
        assert(meta_table@ =~= seq![SchemaItem::AppMeta]);
        self.create_items(&meta_table);
        let key = "schema_version".to_owned();
        let version: i64 = match self.find_meta(&key) {
            Some(i) => {
                proof {
                    lemma_unique_index_meta(self@.meta, key@, i as int);
                }
                match parse_i64(self.meta[i].value.as_str()) {
                    Some(n) => n,
                    None => 0,
                }
            },
            None => 0,
        };
        assert(version as int == stored_version(old_view.meta));
        if version < 1 {
            let first = vec![SchemaItem::Clips, SchemaItem::Tags, SchemaItem::ClipTags, SchemaItem::Embeddings];
            assert(first@ =~= first_step());
            self.create_items(&first);
        }
        assert(self@.schema == after_first_step(old_view));
        if version < 2 {
            if self.contains_item(SchemaItem::ClipsStarredColumn) {
                return Err("duplicate column name: starred".to_owned());
            }
            self.schema.push(SchemaItem::ClipsStarredColumn);
            let second = vec![
                SchemaItem::Collections,
                SchemaItem::CollectionClips,
                SchemaItem::SmartFolders,
                SchemaItem::Waveforms,
            ];
            assert(second@ =~= second_step());
            self.create_items(&second);
        }
        proof {
            lemma_inv_schema(old_view, self@);
        }
        let r = self.set_meta("schema_version", "2");
        assert(self@ =~= initialized(old_view));
        r
    }
}

} // verus!
