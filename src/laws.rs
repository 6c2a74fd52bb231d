//! Properties that hold across calls: a repeated scan changes nothing, a
//! path is held by at most one clip, orphans are reconciled with all that
//! hangs on them, deletion cascades, migrations are idempotent, and a batch
//! of watch events runs at most one scan.
use vstd::prelude::*;

use vstd::seq_lib::group_filter_ensures;

use crate::model::{
    has_artifact, has_clip_id, has_clip_path, is_member, Catalog, ClipModel, SchemaItem,
};
use crate::scan::{found_clip, ingested, orphan_ids, qualifies, scanned, FoundFile};
use crate::schema::{created, decimal_i64, version_key};
use crate::store::{
    after_first_step, initialized, insert_pos, inserted_row, meta_set, meta_value,
    second_step_fails, stored_version, with_clip, without_clips,
};
use crate::filename::{digits_at, is_digit, number_at};
use crate::watcher::{batch_triggers_scan, next_step, WatchAction, WatchEvent, WatchInput, WatchState};

verus! {

pub open spec fn unique_ids(s: Seq<ClipModel>) -> bool {
    forall|i: int, j: int| 0 <= i < j < s.len() ==> #[trigger] s[i].id != #[trigger] s[j].id
}

pub open spec fn unique_paths(s: Seq<ClipModel>) -> bool {
    forall|i: int, j: int| 0 <= i < j < s.len() ==> #[trigger] s[i].path != #[trigger] s[j].path
}

/// The ids handed to a scan are new: none names a stored clip and no two are equal.
pub open spec fn fresh_ids(clips: Seq<ClipModel>, ids: Seq<Seq<char>>) -> bool {
    &&& forall|k: int| 0 <= k < ids.len() ==> !has_clip_id(clips, #[trigger] ids[k])
    &&& forall|a: int, b: int| 0 <= a < b < ids.len() ==> #[trigger] ids[a] != #[trigger] ids[b]
}

proof fn lemma_insert_pos_range(s: Seq<ClipModel>, t: i64)
    ensures
        0 <= insert_pos(s, t) <= s.len(),
    decreases s.len(),
{
    if s.len() > 0 && s[0].recorded_at >= t {
        lemma_insert_pos_range(s.drop_first(), t);
    }
}

/// What `with_clip` keeps and adds, by id and by path.
proof fn lemma_with_clip(s: Seq<ClipModel>, x: ClipModel)
    ensures
        forall|p: Seq<char>| has_clip_path(s, p) ==> has_clip_path(with_clip(s, x), p),
        forall|id: Seq<char>| has_clip_id(s, id) ==> has_clip_id(with_clip(s, x), id),
        forall|id: Seq<char>| has_clip_id(with_clip(s, x), id) ==> has_clip_id(s, id) || id == x.id,
        forall|i: int|
            0 <= i < with_clip(s, x).len() ==> s.contains(#[trigger] with_clip(s, x)[i])
                || with_clip(s, x)[i] == inserted_row(x),
        forall|y: ClipModel| s.contains(y) ==> with_clip(s, x).contains(y),
        !has_clip_path(s, x.path) && !has_clip_id(s, x.id) ==> has_clip_path(with_clip(s, x), x.path),
        unique_ids(s) ==> unique_ids(with_clip(s, x)),
        has_clip_path(s, x.path) ==> with_clip(s, x) == s,
{
    let n = with_clip(s, x);
    if !(has_clip_path(s, x.path) || has_clip_id(s, x.id)) {
        let p = insert_pos(s, x.recorded_at);
        lemma_insert_pos_range(s, x.recorded_at);
        assert(n == s.insert(p, inserted_row(x)));
        assert forall|q: Seq<char>| has_clip_path(s, q) implies has_clip_path(n, q) by {
            let k = choose|k: int| 0 <= k < s.len() && #[trigger] s[k].path == q;
            if k < p {
                assert(n[k] == s[k]);
            } else {
                assert(n[k + 1] == s[k]);
            }
        }
        assert forall|id: Seq<char>| has_clip_id(s, id) implies has_clip_id(n, id) by {
            let k = choose|k: int| 0 <= k < s.len() && #[trigger] s[k].id == id;
            if k < p {
                assert(n[k] == s[k]);
            } else {
                assert(n[k + 1] == s[k]);
            }
        }
        assert forall|i: int| 0 <= i < n.len() implies s.contains(#[trigger] n[i]) || n[i]
            == inserted_row(x) by {
            if i < p {
                assert(n[i] == s[i]);
            } else if i > p {
                assert(n[i] == s[i - 1]);
            }
        }
        assert forall|id: Seq<char>| has_clip_id(n, id) implies has_clip_id(s, id) || id == x.id by {
            let k = choose|k: int| 0 <= k < n.len() && #[trigger] n[k].id == id;
            if k < p {
                assert(n[k] == s[k]);
            } else if k > p {
                assert(n[k] == s[k - 1]);
            }
        }
        assert forall|y: ClipModel| s.contains(y) implies n.contains(y) by {
            let k = choose|k: int| 0 <= k < s.len() && s[k] == y;
            if k < p {
                assert(n[k] == s[k]);
            } else {
                assert(n[k + 1] == s[k]);
            }
        }
        assert(n[p] == inserted_row(x));
        assert(n[p].path == x.path);
        if unique_ids(s) {
            assert forall|i: int, j: int| 0 <= i < j < n.len() implies #[trigger] n[i].id
                != #[trigger] n[j].id by {
                if i == p {
                    assert(n[j] == s[j - 1]);
                } else if j == p {
                    assert(n[i] == s[i]);
                } else {
                    let oi = if i < p {
                        i
                    } else {
                        i - 1
                    };
                    let oj = if j < p {
                        j
                    } else {
                        j - 1
                    };
                    assert(n[i] == s[oi] && n[j] == s[oj]);
                }
            }
        }
    }
}

/// `with_clip` keeps every path, and adds its clip's path where it may insert.
proof fn lemma_with_clip_paths(s: Seq<ClipModel>, x: ClipModel)
    ensures
        forall|p: Seq<char>| has_clip_path(s, p) ==> has_clip_path(with_clip(s, x), p),
        !has_clip_path(s, x.path) && !has_clip_id(s, x.id) ==> has_clip_path(with_clip(s, x), x.path),
{
    lemma_with_clip(s, x);
}

/// A scan keeps every clip that was there, and keeps ids unique.
proof fn lemma_ingested_keeps(clips: Seq<ClipModel>, found: Seq<FoundFile>, ids: Seq<Seq<char>>, now: i64)
    requires
        ids.len() >= found.len(),
    ensures
        forall|y: ClipModel| clips.contains(y) ==> ingested(clips, found, ids, now).contains(y),
        forall|p: Seq<char>| has_clip_path(clips, p) ==> has_clip_path(ingested(clips, found, ids, now), p),
        unique_ids(clips) ==> unique_ids(ingested(clips, found, ids, now)),
    decreases found.len(),
{
    if found.len() > 0 {
        let init = found.drop_last();
        lemma_ingested_keeps(clips, init, ids, now);
        let before = ingested(clips, init, ids, now);
        lemma_with_clip(before, found_clip(found.last(), ids[found.len() - 1], now));
    }
}

/// Every clip after a scan was there before or carries one of the scan's ids.
proof fn lemma_ingested_ids(clips: Seq<ClipModel>, found: Seq<FoundFile>, ids: Seq<Seq<char>>, now: i64)
    requires
        ids.len() >= found.len(),
    ensures
        forall|id: Seq<char>|
            has_clip_id(ingested(clips, found, ids, now), id) ==> has_clip_id(clips, id)
                || ids.subrange(0, found.len() as int).contains(id),
    decreases found.len(),
{
    if found.len() > 0 {
        let init = found.drop_last();
        let n = found.len() - 1;
        lemma_ingested_ids(clips, init, ids, now);
        let before = ingested(clips, init, ids, now);
        let x = found_clip(found.last(), ids[n], now);
        lemma_with_clip(before, x);
        let after = ingested(clips, found, ids, now);
        assert forall|id: Seq<char>| has_clip_id(after, id) implies has_clip_id(clips, id)
            || ids.subrange(0, found.len() as int).contains(id) by {
            if has_clip_id(before, id) && !has_clip_id(clips, id) {
                assert(ids.subrange(0, n).contains(id));
                let k = choose|k: int| 0 <= k < n && ids.subrange(0, n)[k] == id;
                assert(ids.subrange(0, found.len() as int)[k] == id);
            } else if !has_clip_id(clips, id) {
                assert(ids.subrange(0, found.len() as int)[n] == id);
            }
        }
    }
}

/// With fresh ids, every qualifying path is present after a scan.
proof fn lemma_ingested_paths(clips: Seq<ClipModel>, found: Seq<FoundFile>, ids: Seq<Seq<char>>, now: i64)
    requires
        ids.len() >= found.len(),
        fresh_ids(clips, ids),
    ensures
        forall|k: int|
            0 <= k < found.len() && qualifies(#[trigger] found[k]) ==> has_clip_path(
                ingested(clips, found, ids, now),
                found[k].path@,
            ),
    decreases found.len(),
{
    if found.len() > 0 {
        let init = found.drop_last();
        let n = found.len() - 1;
        lemma_ingested_paths(clips, init, ids, now);
        lemma_ingested_ids(clips, init, ids, now);
        let before = ingested(clips, init, ids, now);
        let x = found_clip(found.last(), ids[n], now);
        lemma_with_clip_paths(before, x);
        let after = ingested(clips, found, ids, now);
        assert(after == if qualifies(found.last()) {
            with_clip(before, x)
        } else {
            before
        });
        assert forall|k: int| 0 <= k < found.len() && qualifies(#[trigger] found[k]) implies has_clip_path(
            after,
            found[k].path@,
        ) by {
            if k < n {
                assert(init[k] == found[k]);
                assert(has_clip_path(before, found[k].path@));
            } else {
                assert(x.path == found[k].path@);
                if !has_clip_path(before, x.path) {
                    assert(!has_clip_id(before, ids[n])) by {
                        if has_clip_id(before, ids[n]) {
                            if ids.subrange(0, n).contains(ids[n]) {
                                let m = choose|m: int| 0 <= m < n && ids.subrange(0, n)[m] == ids[n];
                                assert(ids[m] == ids[n]);
                            }
                        }
                    }
                }
            }
        }
    }
}

/// A scan over unchanged input finds nothing more to insert.
proof fn lemma_ingested_noop(clips: Seq<ClipModel>, found: Seq<FoundFile>, ids: Seq<Seq<char>>, now: i64)
    requires
        ids.len() >= found.len(),
        forall|k: int| 0 <= k < found.len() && qualifies(#[trigger] found[k]) ==> has_clip_path(clips, found[k].path@),
    ensures
        ingested(clips, found, ids, now) == clips,
    decreases found.len(),
{
    if found.len() > 0 {
        let init = found.drop_last();
        assert forall|k: int| 0 <= k < init.len() && qualifies(#[trigger] init[k]) implies has_clip_path(
            clips,
            init[k].path@,
        ) by {
            assert(init[k] == found[k]);
        }
        lemma_ingested_noop(clips, init, ids, now);
        let x = found_clip(found.last(), ids[found.len() - 1], now);
        if qualifies(found.last()) {
            assert(has_clip_path(clips, found[found.len() - 1].path@));
            lemma_with_clip(clips, x);
        }
    }
}

proof fn lemma_filter_all<A>(s: Seq<A>, p: spec_fn(A) -> bool)
    requires
        forall|i: int| 0 <= i < s.len() ==> p(#[trigger] s[i]),
    ensures
        s.filter(p) == s,
    decreases s.len(),
{
    reveal(Seq::filter);
    if s.len() > 0 {
        let init = s.drop_last();
        assert forall|i: int| 0 <= i < init.len() implies p(#[trigger] init[i]) by {
            assert(init[i] == s[i]);
        }
        lemma_filter_all(init, p);
        assert(p(s[s.len() - 1]));
        assert(init.push(s.last()) =~= s);
    }
}

proof fn lemma_filter_none<A>(s: Seq<A>, p: spec_fn(A) -> bool)
    requires
        forall|i: int| 0 <= i < s.len() ==> !p(#[trigger] s[i]),
    ensures
        s.filter(p).len() == 0,
{
    broadcast use group_filter_ensures;

    if s.filter(p).len() > 0 {
        let y = s.filter(p)[0];
        assert(p(y));
        s.lemma_filter_contains_rev(p, y);
        let k = choose|k: int| 0 <= k < s.len() && s[k] == y;
        assert(!p(s[k]));
    }
}

/// A clip whose path is listed as missing has its id among the orphans.
proof fn lemma_orphan_listed(clips: Seq<ClipModel>, missing: Seq<Seq<char>>, j: int)
    requires
        0 <= j < clips.len(),
        missing.contains(clips[j].path),
    ensures
        orphan_ids(clips, missing).contains(clips[j].id),
{
    broadcast use group_filter_ensures;

    let f = clips.filter(|c: ClipModel| missing.contains(c.path));
    assert(f.contains(clips[j]));
    let m = choose|m: int| 0 <= m < f.len() && f[m] == clips[j];
    assert(orphan_ids(clips, missing)[m] == clips[j].id);
}

/// An orphan id belongs to a clip whose path is listed as missing.
proof fn lemma_orphan_source(clips: Seq<ClipModel>, missing: Seq<Seq<char>>, id: Seq<char>)
    requires
        orphan_ids(clips, missing).contains(id),
    ensures
        exists|j: int| 0 <= j < clips.len() && #[trigger] clips[j].id == id && missing.contains(clips[j].path),
{
    broadcast use group_filter_ensures;

    let p = |c: ClipModel| missing.contains(c.path);
    let f = clips.filter(p);
    let m = choose|m: int| 0 <= m < orphan_ids(clips, missing).len() && orphan_ids(clips, missing)[m] == id;
    assert(f[m].id == id);
    assert(p(f[m]));
    clips.lemma_filter_contains_rev(p, f[m]);
    let j = choose|j: int| 0 <= j < clips.len() && clips[j] == f[m];
    assert(clips[j].id == id);
}

proof fn lemma_without_none(c: Catalog)
    ensures
        without_clips(c, Seq::empty()) == c,
{
    let e = Seq::<Seq<char>>::empty();
    lemma_filter_all(c.clips, |x: ClipModel| !e.contains(x.id));
    lemma_filter_all(c.members, |m: crate::model::MemberModel| !e.contains(m.clip_id));
    lemma_filter_all(c.embeddings, |a: crate::model::ArtifactModel| !e.contains(a.clip_id));
    lemma_filter_all(c.waveforms, |a: crate::model::ArtifactModel| !e.contains(a.clip_id));
}

/// A second scan over the same directories, with nothing changed on disk,
/// leaves the catalog as the first one left it: the same clips, none twice.
/// The first scan's ids must be new, and no path may be both found and
/// missing.
pub proof fn lemma_scan_idempotent(
    c: Catalog,
    found: Seq<FoundFile>,
    missing: Seq<Seq<char>>,
    ids1: Seq<Seq<char>>,
    ids2: Seq<Seq<char>>,
    now1: i64,
    now2: i64,
)
    requires
        c.inv(),
        ids1.len() == found.len(),
        ids2.len() == found.len(),
        fresh_ids(c.clips, ids1),
        forall|k: int| 0 <= k < found.len() ==> !missing.contains(#[trigger] found[k].path@),
    ensures
        scanned(scanned(c, found, missing, ids1, now1), found, missing, ids2, now2) == scanned(
            c,
            found,
            missing,
            ids1,
            now1,
        ),
{
    broadcast use group_filter_ensures;

    let i1 = ingested(c.clips, found, ids1, now1);
    let o1 = orphan_ids(i1, missing);
    let c1 = scanned(c, found, missing, ids1, now1);
    let pc = |x: ClipModel| !o1.contains(x.id);
    lemma_ingested_keeps(c.clips, found, ids1, now1);
    lemma_ingested_paths(c.clips, found, ids1, now1);
    assert(c1.clips == i1.filter(pc));
    // every qualifying found path survives the first pass
    assert forall|k: int| 0 <= k < found.len() && qualifies(#[trigger] found[k]) implies has_clip_path(
        c1.clips,
        found[k].path@,
    ) by {
        let p = found[k].path@;
        let j = choose|j: int| 0 <= j < i1.len() && #[trigger] i1[j].path == p;
        assert(!o1.contains(i1[j].id)) by {
            if o1.contains(i1[j].id) {
                lemma_orphan_source(i1, missing, i1[j].id);
                let j2 = choose|j2: int| 0 <= j2 < i1.len() && #[trigger] i1[j2].id == i1[j].id
                    && missing.contains(i1[j2].path);
                assert(j2 == j);
            }
        }
        assert(c1.clips.contains(i1[j]));
        let m = choose|m: int| 0 <= m < c1.clips.len() && c1.clips[m] == i1[j];
        assert(c1.clips[m].path == p);
    }
    lemma_ingested_noop(c1.clips, found, ids2, now2);
    // no clip left after the first pass has a missing path
    assert forall|i: int| 0 <= i < c1.clips.len() implies !missing.contains(#[trigger] c1.clips[i].path) by {
        let y = c1.clips[i];
        assert(pc(y));
        i1.lemma_filter_contains_rev(pc, y);
        let j = choose|j: int| 0 <= j < i1.len() && i1[j] == y;
        if missing.contains(y.path) {
            lemma_orphan_listed(i1, missing, j);
        }
    }
    lemma_filter_none(c1.clips, |x: ClipModel| missing.contains(x.path));
    assert(orphan_ids(c1.clips, missing) =~= Seq::<Seq<char>>::empty());
    assert(Catalog { clips: c1.clips, ..c1 } == c1);
    lemma_without_none(c1);
}

/// Two inserts of clips with one path leave exactly one clip with that path,
/// provided the first could be stored (its path is known, or its id is new).
pub proof fn lemma_one_clip_per_path(s: Seq<ClipModel>, a: ClipModel, b: ClipModel)
    requires
        unique_paths(s),
        a.path == b.path,
        has_clip_path(s, a.path) || !has_clip_id(s, a.id),
    ensures
        exists|i: int| 0 <= i < with_clip(with_clip(s, a), b).len() && #[trigger] with_clip(with_clip(s, a), b)[i].path == a.path,
        forall|i: int, j: int|
            0 <= i < with_clip(with_clip(s, a), b).len() && 0 <= j < with_clip(with_clip(s, a), b).len()
                && #[trigger] with_clip(with_clip(s, a), b)[i].path == a.path && #[trigger] with_clip(
                with_clip(s, a),
                b,
            )[j].path == a.path ==> i == j,
{
    lemma_with_clip(s, a);
    let s1 = with_clip(s, a);
    assert(has_clip_path(s1, a.path));
    lemma_with_clip(s1, b);
    assert(with_clip(s1, b) == s1);
    if has_clip_path(s, a.path) {
        assert(s1 == s);
    } else {
        let p = insert_pos(s, a.recorded_at);
        lemma_insert_pos_range(s, a.recorded_at);
        assert(s1 == s.insert(p, inserted_row(a)));
        assert forall|i: int, j: int| 0 <= i < s1.len() && 0 <= j < s1.len() && #[trigger] s1[i].path
            == a.path && #[trigger] s1[j].path == a.path implies i == j by {
            if i != p {
                let oi = if i < p {
                    i
                } else {
                    i - 1
                };
                assert(s1[i] == s[oi]);
            }
            if j != p {
                let oj = if j < p {
                    j
                } else {
                    j - 1
                };
                assert(s1[j] == s[oj]);
            }
            if i != p && j != p {
                let oi = if i < p {
                    i
                } else {
                    i - 1
                };
                let oj = if j < p {
                    j
                } else {
                    j - 1
                };
                assert(s[oi].path == s[oj].path);
                if oi < oj {
                    assert(s[oi].path != s[oj].path);
                } else if oj < oi {
                    assert(s[oj].path != s[oi].path);
                }
            }
        }
    }
}

/// A scan removes a clip whose file is gone, and with it its tag links (held
/// by the clip's row), its collection memberships and its cached artifacts;
/// tags and collections themselves stay.
pub proof fn lemma_orphan_reconciled(
    c: Catalog,
    found: Seq<FoundFile>,
    missing: Seq<Seq<char>>,
    ids: Seq<Seq<char>>,
    now: i64,
    i: int,
)
    requires
        c.inv(),
        ids.len() == found.len(),
        0 <= i < c.clips.len(),
        missing.contains(c.clips[i].path),
    ensures
        !has_clip_id(scanned(c, found, missing, ids, now).clips, c.clips[i].id),
        forall|k: int|
            0 <= k < scanned(c, found, missing, ids, now).members.len() ==> (#[trigger] scanned(
                c,
                found,
                missing,
                ids,
                now,
            ).members[k]).clip_id != c.clips[i].id,
        !has_artifact(scanned(c, found, missing, ids, now).embeddings, c.clips[i].id),
        !has_artifact(scanned(c, found, missing, ids, now).waveforms, c.clips[i].id),
        scanned(c, found, missing, ids, now).tags == c.tags,
        scanned(c, found, missing, ids, now).collections == c.collections,
{
    broadcast use group_filter_ensures;

    let x = c.clips[i];
    let i1 = ingested(c.clips, found, ids, now);
    lemma_ingested_keeps(c.clips, found, ids, now);
    assert(c.clips.contains(x));
    assert(i1.contains(x));
    let j = choose|j: int| 0 <= j < i1.len() && i1[j] == x;
    lemma_orphan_listed(i1, missing, j);
    let o = orphan_ids(i1, missing);
    let n = scanned(c, found, missing, ids, now);
    assert(!has_clip_id(n.clips, x.id)) by {
        if has_clip_id(n.clips, x.id) {
            let k = choose|k: int| 0 <= k < n.clips.len() && #[trigger] n.clips[k].id == x.id;
            assert(!o.contains(n.clips[k].id));
        }
    }
    assert forall|k: int| 0 <= k < n.members.len() implies (#[trigger] n.members[k]).clip_id != x.id by {
        assert(!o.contains(n.members[k].clip_id));
    }
    assert(!has_artifact(n.embeddings, x.id)) by {
        if has_artifact(n.embeddings, x.id) {
            let k = choose|k: int| 0 <= k < n.embeddings.len() && #[trigger] n.embeddings[k].clip_id == x.id;
            assert(!o.contains(n.embeddings[k].clip_id));
        }
    }
    assert(!has_artifact(n.waveforms, x.id)) by {
        if has_artifact(n.waveforms, x.id) {
            let k = choose|k: int| 0 <= k < n.waveforms.len() && #[trigger] n.waveforms[k].clip_id == x.id;
            assert(!o.contains(n.waveforms[k].clip_id));
        }
    }
}

/// Deleting clips keeps every tag and collection row, and leaves no tag
/// link, membership or cached artifact that names a deleted clip.
pub proof fn lemma_delete_cascades(c: Catalog, ids: Seq<Seq<char>>)
    requires
        c.inv(),
    ensures
        without_clips(c, ids).tags == c.tags,
        without_clips(c, ids).collections == c.collections,
        forall|k: int|
            0 <= k < ids.len() ==> !has_clip_id(without_clips(c, ids).clips, #[trigger] ids[k]),
        forall|k: int, t: Seq<char>|
            0 <= k < ids.len() ==> !#[trigger] is_member(without_clips(c, ids).members, t, ids[k]),
        forall|k: int| 0 <= k < ids.len() ==> !has_artifact(without_clips(c, ids).embeddings, #[trigger] ids[k]),
        forall|k: int| 0 <= k < ids.len() ==> !has_artifact(without_clips(c, ids).waveforms, #[trigger] ids[k]),
{
    broadcast use group_filter_ensures;

    let n = without_clips(c, ids);
    assert forall|k: int| 0 <= k < ids.len() implies !has_clip_id(n.clips, #[trigger] ids[k]) by {
        if has_clip_id(n.clips, ids[k]) {
            let j = choose|j: int| 0 <= j < n.clips.len() && #[trigger] n.clips[j].id == ids[k];
            assert(!ids.contains(n.clips[j].id));
        }
    }
    assert forall|k: int, t: Seq<char>| 0 <= k < ids.len() implies !#[trigger] is_member(n.members, t, ids[k]) by {
        if is_member(n.members, t, ids[k]) {
            let j = choose|j: int| 0 <= j < n.members.len() && #[trigger] n.members[j].collection_id == t
                && n.members[j].clip_id == ids[k];
            assert(!ids.contains(n.members[j].clip_id));
        }
    }
    assert forall|k: int| 0 <= k < ids.len() implies !has_artifact(n.embeddings, #[trigger] ids[k]) by {
        if has_artifact(n.embeddings, ids[k]) {
            let j = choose|j: int| 0 <= j < n.embeddings.len() && #[trigger] n.embeddings[j].clip_id == ids[k];
            assert(!ids.contains(n.embeddings[j].clip_id));
        }
    }
    assert forall|k: int| 0 <= k < ids.len() implies !has_artifact(n.waveforms, #[trigger] ids[k]) by {
        if has_artifact(n.waveforms, ids[k]) {
            let j = choose|j: int| 0 <= j < n.waveforms.len() && #[trigger] n.waveforms[j].clip_id == ids[k];
            assert(!ids.contains(n.waveforms[j].clip_id));
        }
    }
}

proof fn lemma_created(s: Seq<SchemaItem>, items: Seq<SchemaItem>)
    ensures
        forall|x: SchemaItem| #[trigger] created(s, items).contains(x) <==> s.contains(x) || items.contains(x),
        (forall|k: int| 0 <= k < items.len() ==> s.contains(#[trigger] items[k])) ==> created(s, items) == s,
    decreases items.len(),
{
    if items.len() > 0 {
        let init = items.drop_last();
        lemma_created(s, init);
        let c = created(s, init);
        assert forall|x: SchemaItem| #[trigger] created(s, items).contains(x) <==> s.contains(x)
            || items.contains(x) by {
            if init.contains(x) {
                let k = choose|k: int| 0 <= k < init.len() && init[k] == x;
                assert(items[k] == x);
            }
            if items.contains(x) && x != items.last() {
                let k = choose|k: int| 0 <= k < items.len() && items[k] == x;
                assert(init[k] == x);
            }
            if !c.contains(items.last()) {
                assert(c.push(items.last())[c.len() as int] == items.last());
                if c.push(items.last()).contains(x) && x != items.last() {
                    let k = choose|k: int| 0 <= k < c.len() + 1 && c.push(items.last())[k] == x;
                    assert(c[k] == x);
                }
                if c.contains(x) {
                    let k = choose|k: int| 0 <= k < c.len() && c[k] == x;
                    assert(c.push(items.last())[k] == x);
                }
            }
            assert(items[items.len() - 1] == items.last());
        }
        if forall|k: int| 0 <= k < items.len() ==> s.contains(#[trigger] items[k]) {
            assert forall|k: int| 0 <= k < init.len() implies s.contains(#[trigger] init[k]) by {
                assert(init[k] == items[k]);
            }
            assert(s.contains(items[items.len() - 1]));
        }
    }
}

proof fn lemma_version_two()
    ensures
        decimal_i64("2"@) == Some(2int),
{
    reveal_strlit("2");
    let s = "2"@;
    assert(s.len() == 1 && s[0] == '2');
    assert(!(s[0] == '+' || s[0] == '-'));
    assert(digits_at(s, 0, 1));
    assert(is_digit(s[0]));
    assert(number_at(s, 0, 1) == 2) by {
        reveal_with_fuel(number_at, 2);
    }
}

proof fn lemma_meta_set(meta: Seq<(Seq<char>, Seq<char>)>, key: Seq<char>, value: Seq<char>)
    requires
        forall|a: int, b: int| 0 <= a < b < meta.len() ==> #[trigger] meta[a].0 != #[trigger] meta[b].0,
    ensures
        meta_value(meta_set(meta, key, value), key) == Some(value),
        meta_set(meta_set(meta, key, value), key, value) == meta_set(meta, key, value),
{
    let m1 = meta_set(meta, key, value);
    if crate::model::has_meta_key(meta, key) {
        let k = choose|k: int| 0 <= k < meta.len() && #[trigger] meta[k].0 == key;
        assert(m1[k].0 == key);
        assert(crate::model::has_meta_key(m1, key));
        let j = choose|j: int| 0 <= j < m1.len() && #[trigger] m1[j].0 == key;
        assert(m1[j] == (key, value));
        assert(meta_set(m1, key, value) =~= m1);
    } else {
        assert(m1[meta.len() as int].0 == key);
        assert(crate::model::has_meta_key(m1, key));
        let j = choose|j: int| 0 <= j < m1.len() && #[trigger] m1[j].0 == key;
        if j < meta.len() {
            assert(meta[j].0 == key);
        }
        assert(m1[j] == (key, value));
        assert(meta_set(m1, key, value) =~= m1);
    }
}

/// Running `init` again on a catalog that it has brought up to date
/// succeeds and changes nothing: the stored version and the schema stay
/// as one run left them.
pub proof fn lemma_init_idempotent(c: Catalog)
    requires
        c.inv(),
        !second_step_fails(c),
    ensures
        !second_step_fails(initialized(c)),
        initialized(initialized(c)) == initialized(c),
        stored_version(initialized(c).meta) == 2,
{
    let c1 = initialized(c);
    lemma_meta_set(c.meta, version_key(), "2"@);
    lemma_version_two();
    assert(stored_version(c1.meta) == 2);
    let s0 = created(c.schema, seq![SchemaItem::AppMeta]);
    lemma_created(c.schema, seq![SchemaItem::AppMeta]);
    assert(seq![SchemaItem::AppMeta][0] == SchemaItem::AppMeta);
    assert(s0.contains(SchemaItem::AppMeta));
    let s1 = after_first_step(c);
    lemma_created(s0, crate::schema::first_step());
    assert(s1.contains(SchemaItem::AppMeta));
    if stored_version(c.meta) < 2 {
        let s2 = s1.push(SchemaItem::ClipsStarredColumn);
        assert(s2.contains(SchemaItem::AppMeta)) by {
            let k = choose|k: int| 0 <= k < s1.len() && s1[k] == SchemaItem::AppMeta;
            assert(s2[k] == SchemaItem::AppMeta);
        }
        lemma_created(s2, crate::schema::second_step());
    }
    assert(c1.schema.contains(SchemaItem::AppMeta));
    lemma_created(c1.schema, seq![SchemaItem::AppMeta]);
    assert(after_first_step(c1) == c1.schema);
    assert(initialized(c1) =~= c1);
}

/// A batch of watch events that holds one or more changes to `.mp4` files,
/// however many, leads the listening watcher to exactly one scan, after
/// which it listens again; a batch with none leads to no scan.
pub proof fn lemma_one_scan_per_batch(events: Vec<WatchEvent>)
    ensures
        batch_triggers_scan(events@) ==> next_step(WatchState::Listening, WatchInput::Batch(events)) == (
            WatchState::Listening,
            WatchAction::Rescan,
        ),
        !batch_triggers_scan(events@) ==> next_step(WatchState::Listening, WatchInput::Batch(events)) == (
            WatchState::Listening,
            WatchAction::Wait,
        ),
{
}

} // verus!
