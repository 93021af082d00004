use vstd::prelude::*;

use crate::engine::content_of;
use crate::engine::fts_match;
use crate::engine::has_live_note;
use crate::engine::has_note;
use crate::engine::live;
use crate::engine::note_at;
use crate::engine::note_has_tag;
use crate::engine::note_matches;
use crate::engine::relinked;
use crate::engine::update_effect;
use crate::engine::StoreView;
use crate::tags::lemma_normalize_membership;
use crate::tags::lower_of;
use crate::tags::norm_of;
use crate::tags::normalize_spec;
use crate::text::is_blank;
use crate::text::lemma_runs_wf;
use crate::text::lemma_single_token;
use crate::text::runs;
use crate::text::trim_spec;

verus! {

/// Index consistency, first half: after a content rewrite of a live note,
/// a search whose query is any single token of the new content matches the
/// rewritten note, and the trimmed query is that token itself.
pub proof fn lemma_updated_content_found(
    pre: StoreView,
    post: StoreView,
    id: Seq<char>,
    content: Seq<char>,
    now: u64,
    t: Seq<char>,
)
    requires
        pre.wf(),
        has_live_note(pre, id),
        update_effect(pre, post, id, content, now),
        runs(content).contains(t),
    ensures
        trim_spec(t) == t,
        note_matches(post, note_at(pre, id), t, Seq::<Seq<char>>::empty()),
        post.notes[note_at(pre, id)].id == id,
{
    let i = note_at(pre, id);
    lemma_runs_wf(content);
    let k = choose|k: int| 0 <= k < runs(content).len() && runs(content)[k] == t;
    assert(t.len() > 0);
    assert(forall|j: int| 0 <= j < t.len() ==> !is_blank(t[j]));
    lemma_single_token(t);
    assert(post.notes[i].content == content);
    assert(live(post.notes[i]));
    assert(fts_match(content, t)) by {
        assert(runs(t) =~= seq![t]);
        assert forall|m: int| 0 <= m < crate::engine::lowers(runs(t)).len() implies crate::engine::lowers(
            runs(content),
        ).contains(#[trigger] crate::engine::lowers(runs(t))[m]) by {
            assert(crate::engine::lowers(runs(t))[m] == lower_of(t));
            assert(crate::engine::lowers(runs(content))[k] == lower_of(t));
        }
    }
}

/// Index consistency, second half: a note whose content has no token with
/// the lowercase form of `t` does not match the full-text query `t`.
pub proof fn lemma_stale_token_not_found(content: Seq<char>, t: Seq<char>)
    requires
        t.len() > 0,
        forall|j: int| 0 <= j < t.len() ==> !is_blank(t[j]),
        forall|k: int|
            0 <= k < runs(content).len() ==> lower_of(#[trigger] runs(content)[k]) != lower_of(t),
    ensures
        !fts_match(content, t),
{
    lemma_single_token(t);
    assert(runs(t) =~= seq![t]);
    assert(crate::engine::lowers(runs(t))[0] == lower_of(t));
    if fts_match(content, t) {
        assert(crate::engine::lowers(runs(content)).contains(lower_of(t)));
        let k = choose|k: int|
            0 <= k < crate::engine::lowers(runs(content)).len() && crate::engine::lowers(
                runs(content),
            )[k] == lower_of(t);
        assert(lower_of(runs(content)[k]) == lower_of(t));
    }
}

/// Soft-delete exclusion: a note with a non-null `deleted_at` never matches
/// a search, whatever the filters, and a direct lookup of its content finds
/// nothing.
pub proof fn lemma_soft_deleted_invisible(
    v: StoreView,
    i: int,
    qt: Seq<char>,
    tn: Seq<Seq<char>>,
)
    requires
        v.wf(),
        0 <= i < v.notes.len(),
        v.notes[i].deleted_at is Some,
    ensures
        !note_matches(v, i, qt, tn),
        content_of(v, v.notes[i].id) is None,
{
    assert(!live(v.notes[i]));
    let id = v.notes[i].id;
    assert(has_note(v, id));
    let w = note_at(v, id);
    assert(0 <= w < v.notes.len() && v.notes[w].id == id);
    if w != i {
        assert(v.notes[w].id != v.notes[i].id);
    }
    assert(!has_live_note(v, id));
}

/// Round trip at insertion: a freshly inserted note carries a name exactly
/// when that name is the non-empty normal form of some entry of the tag list
/// it was inserted with.
pub proof fn lemma_insert_tags_round_trip(
    pre: StoreView,
    post: StoreView,
    id: Seq<char>,
    content: Seq<char>,
    tags: Seq<Seq<char>>,
    now: u64,
    name: Seq<char>,
)
    requires
        crate::engine::insert_effect(pre, post, id, content, normalize_spec(tags), now),
    ensures
        note_has_tag(post, id, name) <==> (name.len() > 0 && exists|k: int|
            0 <= k < tags.len() && norm_of(#[trigger] tags[k]) == name),
{
    lemma_normalize_membership(tags, name);
}

/// Tag round trip: once a note's tag set has been replaced by the
/// normalized form of `tags`, it carries a name exactly when that name is
/// the non-empty normal form of some entry of `tags` — so normalizing an
/// already-normalized list changes nothing at the storage boundary.
pub proof fn lemma_tag_round_trip(
    pre: StoreView,
    post: StoreView,
    id: Seq<char>,
    tags: Seq<Seq<char>>,
    name: Seq<char>,
)
    requires
        pre.wf(),
        has_note(pre, id),
        relinked(pre, post, id, normalize_spec(tags)),
    ensures
        note_has_tag(post, id, name) <==> (name.len() > 0 && exists|k: int|
            0 <= k < tags.len() && norm_of(#[trigger] tags[k]) == name),
{
    lemma_normalize_membership(tags, name);
}

} // verus!
