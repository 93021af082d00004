use vstd::multiset::Multiset;
use vstd::prelude::*;

use crate::errors::StorageError;
use crate::tags::norm_of;
use crate::tags::normalize_tags;
use crate::tags::normalize_spec;
use crate::tags::lemma_normalize_wf;
use crate::text::lex_leq;
use crate::text::lex_lt;
use crate::text::sort_strings;
use crate::text::str_starts_with;
use crate::text::trim_blanks;
use crate::text::trim_front;
use crate::text::trim_spec;
use crate::text::views;
use crate::tags::lowercased;
use crate::tags::lower_of;
use crate::text::runs;
use crate::text::split_tokens;

verus! {

/// One row of the notes relation.
pub struct NoteRow {
    pub id: String,
    pub content: String,
    pub created_at: u64,
    pub updated_at: u64,
    pub deleted_at: Option<u64>,
    pub pinned: bool,
}

/// One row of the tags relation: an engine-assigned id and a normalized name.
pub struct TagRow {
    pub id: u64,
    pub name: String,
}

/// One row of the notes_tags association.
pub struct LinkRow {
    pub note_id: String,
    pub tag_id: u64,
}

/// One row of the full-text index, mirroring a note's content.
pub struct FtsRow {
    pub note_id: String,
    pub content: String,
}

/// One search result: a note id and the raw content, reused as preview.
#[derive(Debug, Clone)]
pub struct NoteListItem {
    pub id: String,
    pub preview: String,
}

/// The mathematical image of a note row.
pub struct NoteV {
    pub id: Seq<char>,
    pub content: Seq<char>,
    pub created_at: u64,
    pub updated_at: u64,
    pub deleted_at: Option<u64>,
    pub pinned: bool,
}

/// The mathematical image of a tag row.
pub struct TagV {
    pub id: u64,
    pub name: Seq<char>,
}

/// The mathematical image of an association row.
pub struct LinkV {
    pub note_id: Seq<char>,
    pub tag_id: u64,
}

/// The mathematical image of a full-text index row.
pub struct FtsV {
    pub note_id: Seq<char>,
    pub content: Seq<char>,
}

impl View for NoteRow {
    type V = NoteV;

    open spec fn view(&self) -> NoteV {
        NoteV {
            id: self.id@,
            content: self.content@,
            created_at: self.created_at,
            updated_at: self.updated_at,
            deleted_at: self.deleted_at,
            pinned: self.pinned,
        }
    }
}

impl View for TagRow {
    type V = TagV;

    open spec fn view(&self) -> TagV {
        TagV { id: self.id, name: self.name@ }
    }
}

impl View for LinkRow {
    type V = LinkV;

    open spec fn view(&self) -> LinkV {
        LinkV { note_id: self.note_id@, tag_id: self.tag_id }
    }
}

impl View for FtsRow {
    type V = FtsV;

    open spec fn view(&self) -> FtsV {
        FtsV { note_id: self.note_id@, content: self.content@ }
    }
}

/// The state of the storage engine: the four relations of the schema.
#[verifier::ext_equal]
pub struct StoreView {
    pub notes: Seq<NoteV>,
    pub tags: Seq<TagV>,
    pub links: Seq<LinkV>,
    pub fts: Seq<FtsV>,
}

/// A note row is live when it has not been soft-deleted.
pub open spec fn live(n: NoteV) -> bool {
    n.deleted_at is None
}

impl StoreView {
    /// The engine's invariant.
    ///
    /// Note ids are unique and `updated_at` never precedes `created_at`; tag
    /// ids and names are unique and names are never empty; association pairs
    /// are unique and refer to existing rows; the full-text index holds
    /// exactly one entry per note, mirroring its content byte for byte.
    pub open spec fn wf(self) -> bool {
        &&& forall|i: int, j: int|
            0 <= i < j < self.notes.len() ==> (#[trigger] self.notes[i]).id != (
            #[trigger] self.notes[j]).id
        &&& forall|i: int|
            0 <= i < self.notes.len() ==> (#[trigger] self.notes[i]).updated_at
                >= self.notes[i].created_at
        &&& forall|i: int, j: int|
            0 <= i < j < self.tags.len() ==> (#[trigger] self.tags[i]).id != (
            #[trigger] self.tags[j]).id && self.tags[i].name != self.tags[j].name
        &&& forall|i: int| 0 <= i < self.tags.len() ==> (#[trigger] self.tags[i]).name.len() > 0
        &&& forall|i: int, j: int|
            0 <= i < j < self.links.len() ==> !((#[trigger] self.links[i]).note_id == (
            #[trigger] self.links[j]).note_id && self.links[i].tag_id == self.links[j].tag_id)
        &&& forall|i: int|
            0 <= i < self.links.len() ==> has_note(self, (#[trigger] self.links[i]).note_id)
        &&& forall|i: int|
            0 <= i < self.links.len() ==> has_tag_id(self, (#[trigger] self.links[i]).tag_id)
        &&& self.fts.len() == self.notes.len()
        &&& forall|i: int|
            0 <= i < self.notes.len() ==> (#[trigger] self.fts[i]).note_id == self.notes[i].id
                && self.fts[i].content == self.notes[i].content
    }
}

/// Whether some note row carries `id`.
pub open spec fn has_note(v: StoreView, id: Seq<char>) -> bool {
    exists|i: int| 0 <= i < v.notes.len() && (#[trigger] v.notes[i]).id == id
}

/// The index of the note row carrying `id`.
pub open spec fn note_at(v: StoreView, id: Seq<char>) -> int {
    choose|i: int| 0 <= i < v.notes.len() && (#[trigger] v.notes[i]).id == id
}

/// Whether a live note carries `id`.
pub open spec fn has_live_note(v: StoreView, id: Seq<char>) -> bool {
    has_note(v, id) && live(v.notes[note_at(v, id)])
}

/// Whether some tag row has id `tid`.
pub open spec fn has_tag_id(v: StoreView, tid: u64) -> bool {
    exists|i: int| 0 <= i < v.tags.len() && (#[trigger] v.tags[i]).id == tid
}

/// The index of the row of `tags` named `name`.
pub open spec fn tag_idx_in(tags: Seq<TagV>, name: Seq<char>) -> int {
    choose|i: int| 0 <= i < tags.len() && (#[trigger] tags[i]).name == name
}

/// The id of the row of `tags` named `name`.
pub open spec fn tag_id_in(tags: Seq<TagV>, name: Seq<char>) -> u64 {
    tags[tag_idx_in(tags, name)].id
}

/// Whether some tag row is named `name`.
pub open spec fn has_tag(v: StoreView, name: Seq<char>) -> bool {
    has_tag_name(v.tags, name)
}

/// The index of the tag row named `name`.
pub open spec fn tag_at(v: StoreView, name: Seq<char>) -> int {
    tag_idx_in(v.tags, name)
}

/// Whether the association holds the pair (`note_id`, `tag_id`).
pub open spec fn linked(v: StoreView, note_id: Seq<char>, tag_id: u64) -> bool {
    exists|i: int|
        0 <= i < v.links.len() && (#[trigger] v.links[i]).note_id == note_id
            && v.links[i].tag_id == tag_id
}

/// Whether the note carrying `note_id` is tagged `name`.
pub open spec fn note_has_tag(v: StoreView, note_id: Seq<char>, name: Seq<char>) -> bool {
    has_tag(v, name) && linked(v, note_id, v.tags[tag_at(v, name)].id)
}

/// Whether some row of `tags` is named `name`.
pub open spec fn has_tag_name(tags: Seq<TagV>, name: Seq<char>) -> bool {
    exists|i: int| 0 <= i < tags.len() && (#[trigger] tags[i]).name == name
}

/// The largest tag id in use, or 0 when no tags exist.
pub open spec fn max_id_of(tags: Seq<TagV>) -> u64
    decreases tags.len(),
{
    if tags.len() == 0 {
        0
    } else if tags.last().id >= max_id_of(tags.drop_last()) {
        tags.last().id
    } else {
        max_id_of(tags.drop_last())
    }
}

pub proof fn lemma_max_id(tags: Seq<TagV>)
    ensures
        forall|i: int| 0 <= i < tags.len() ==> (#[trigger] tags[i]).id <= max_id_of(tags),
    decreases tags.len(),
{
    if tags.len() > 0 {
        lemma_max_id(tags.drop_last());
        assert forall|i: int| 0 <= i < tags.len() implies (#[trigger] tags[i]).id <= max_id_of(
            tags,
        ) by {
            if i < tags.len() - 1 {
                assert(tags[i] == tags.drop_last()[i]);
            }
        }
    }
}

/// The names among `names` that no row of `tags` carries yet, in order.
pub open spec fn fresh_of(tags: Seq<TagV>, names: Seq<Seq<char>>) -> Seq<Seq<char>>
    decreases names.len(),
{
    if names.len() == 0 {
        Seq::empty()
    } else {
        let prev = fresh_of(tags, names.drop_last());
        if has_tag_name(tags, names.last()) {
            prev
        } else {
            prev.push(names.last())
        }
    }
}

pub proof fn lemma_fresh_of(tags: Seq<TagV>, names: Seq<Seq<char>>)
    ensures
        forall|i: int|
            0 <= i < fresh_of(tags, names).len() ==> !has_tag_name(
                tags,
                #[trigger] fresh_of(tags, names)[i],
            ) && names.contains(fresh_of(tags, names)[i]),
        forall|n: Seq<char>|
            #[trigger] fresh_of(tags, names).contains(n) <==> (names.contains(n) && !has_tag_name(
                tags,
                n,
            )),
        fresh_of(tags, names).len() <= names.len(),
    decreases names.len(),
{
    if names.len() > 0 {
        lemma_fresh_of(tags, names.drop_last());
        let prev = fresh_of(tags, names.drop_last());
        assert forall|k: int|
            0 <= k < names.drop_last().len() implies names.drop_last()[k] == names[k] by {}
        assert(names.contains(names.last()));
        assert forall|i: int|
            0 <= i < fresh_of(tags, names).len() implies !has_tag_name(
            tags,
            #[trigger] fresh_of(tags, names)[i],
        ) && names.contains(fresh_of(tags, names)[i]) by {
            if i < prev.len() {
                assert(fresh_of(tags, names)[i] == prev[i]);
                let k = choose|k: int|
                    0 <= k < names.drop_last().len() && names.drop_last()[k] == prev[i];
            }
        }
        assert forall|n: Seq<char>| #[trigger]
            fresh_of(tags, names).contains(n) implies (names.contains(n) && !has_tag_name(
            tags,
            n,
        )) by {
            let i = choose|i: int|
                0 <= i < fresh_of(tags, names).len() && fresh_of(tags, names)[i] == n;
        }
        assert forall|n: Seq<char>|
            names.contains(n) && !has_tag_name(tags, n) implies #[trigger] fresh_of(
            tags,
            names,
        ).contains(n) by {
            let k = choose|k: int| 0 <= k < names.len() && names[k] == n;
            if k < names.len() - 1 {
                assert(names.drop_last()[k] == n);
                assert(names.drop_last().contains(n));
                assert(prev.contains(n));
                let i = choose|i: int| 0 <= i < prev.len() && prev[i] == n;
                assert(fresh_of(tags, names)[i] == n);
            } else {
                assert(fresh_of(tags, names).last() == n);
            }
        }
    }
}

/// Distinct names stay distinct after the fresh filter.
pub proof fn lemma_fresh_of_distinct(tags: Seq<TagV>, names: Seq<Seq<char>>)
    requires
        forall|i: int, j: int|
            0 <= i < j < names.len() ==> (#[trigger] names[i]) != (#[trigger] names[j]),
    ensures
        forall|i: int, j: int|
            0 <= i < j < fresh_of(tags, names).len() ==> (#[trigger] fresh_of(tags, names)[i]) != (
            #[trigger] fresh_of(tags, names)[j]),
    decreases names.len(),
{
    if names.len() > 0 {
        assert forall|k: int|
            0 <= k < names.drop_last().len() implies names.drop_last()[k] == names[k] by {}
        lemma_fresh_of_distinct(tags, names.drop_last());
        let prev = fresh_of(tags, names.drop_last());
        if !has_tag_name(tags, names.last()) {
            assert forall|i: int, j: int|
                0 <= i < j < fresh_of(tags, names).len() implies (#[trigger] fresh_of(
                tags,
                names,
            )[i]) != (#[trigger] fresh_of(tags, names)[j]) by {
                if j == prev.len() {
                    lemma_fresh_of(tags, names.drop_last());
                    assert(fresh_of(tags, names)[i] == prev[i]);
                    let k = choose|k: int|
                        0 <= k < names.drop_last().len() && names.drop_last()[k] == prev[i];
                    assert(names[k] == prev[i]);
                    assert(names[names.len() - 1] == fresh_of(tags, names)[j]);
                }
            }
        }
    }
}

/// The links of `links` whose note id is not `id`, in order.
pub open spec fn links_without(links: Seq<LinkV>, id: Seq<char>) -> Seq<LinkV>
    decreases links.len(),
{
    if links.len() == 0 {
        Seq::empty()
    } else {
        let prev = links_without(links.drop_last(), id);
        if links.last().note_id == id {
            prev
        } else {
            prev.push(links.last())
        }
    }
}

pub proof fn lemma_links_without(links: Seq<LinkV>, id: Seq<char>)
    ensures
        forall|l: LinkV| #[trigger]
            links_without(links, id).contains(l) <==> (links.contains(l) && l.note_id != id),
        links_without(links, id).len() <= links.len(),
        forall|i: int|
            0 <= i < links_without(links, id).len() ==> (#[trigger] links_without(links, id)[i]).note_id
                != id,
    decreases links.len(),
{
    if links.len() > 0 {
        lemma_links_without(links.drop_last(), id);
        let prev = links_without(links.drop_last(), id);
        assert forall|k: int|
            0 <= k < links.drop_last().len() implies links.drop_last()[k] == links[k] by {}
        assert(links.contains(links.last()));
        assert forall|l: LinkV| #[trigger]
            links_without(links, id).contains(l) implies (links.contains(l) && l.note_id
            != id) by {
            let i = choose|i: int|
                0 <= i < links_without(links, id).len() && links_without(links, id)[i] == l;
            if i < prev.len() {
                assert(prev.contains(l));
                let k = choose|k: int|
                    0 <= k < links.drop_last().len() && links.drop_last()[k] == l;
            }
        }
        assert forall|l: LinkV|
            links.contains(l) && l.note_id != id implies #[trigger] links_without(
            links,
            id,
        ).contains(l) by {
            let k = choose|k: int| 0 <= k < links.len() && links[k] == l;
            if k < links.len() - 1 {
                assert(links.drop_last()[k] == l);
                assert(links.drop_last().contains(l));
                assert(prev.contains(l));
                let i = choose|i: int| 0 <= i < prev.len() && prev[i] == l;
                assert(links_without(links, id)[i] == l);
            } else {
                assert(links_without(links, id).last() == l);
            }
        }
    }
}

/// Predicates that read only the notes relation carry over between views
/// that share it.
pub proof fn lemma_same_notes(v1: StoreView, v2: StoreView)
    requires
        v1.notes == v2.notes,
    ensures
        forall|x: Seq<char>|
            #![trigger has_note(v1, x)]
            #![trigger has_note(v2, x)]
            has_note(v1, x) == has_note(v2, x),
{
    assert forall|x: Seq<char>|
        #![trigger has_note(v1, x)]
        #![trigger has_note(v2, x)]
        has_note(v1, x) == has_note(v2, x) by {
        if has_note(v1, x) {
            let w = choose|i: int| 0 <= i < v1.notes.len() && (#[trigger] v1.notes[i]).id == x;
            assert(v2.notes[w].id == x);
        }
        if has_note(v2, x) {
            let w = choose|i: int| 0 <= i < v2.notes.len() && (#[trigger] v2.notes[i]).id == x;
            assert(v1.notes[w].id == x);
        }
    }
}

/// Predicates that read only the tags relation carry over between views that
/// share it.
pub proof fn lemma_same_tags(v1: StoreView, v2: StoreView)
    requires
        v1.tags == v2.tags,
    ensures
        forall|t: u64|
            #![trigger has_tag_id(v1, t)]
            #![trigger has_tag_id(v2, t)]
            has_tag_id(v1, t) == has_tag_id(v2, t),
        forall|n: Seq<char>|
            #![trigger has_tag(v1, n)]
            #![trigger has_tag(v2, n)]
            has_tag(v1, n) == has_tag(v2, n),
{
    assert forall|t: u64|
        #![trigger has_tag_id(v1, t)]
        #![trigger has_tag_id(v2, t)]
        has_tag_id(v1, t) == has_tag_id(v2, t) by {
        if has_tag_id(v1, t) {
            let w = choose|i: int| 0 <= i < v1.tags.len() && (#[trigger] v1.tags[i]).id == t;
            assert(v2.tags[w].id == t);
        }
        if has_tag_id(v2, t) {
            let w = choose|i: int| 0 <= i < v2.tags.len() && (#[trigger] v2.tags[i]).id == t;
            assert(v1.tags[w].id == t);
        }
    }
}

/// A link relation without duplicate pairs keeps that property under the
/// filter.
pub proof fn lemma_links_without_distinct(links: Seq<LinkV>, id: Seq<char>)
    requires
        forall|a: int, b: int|
            0 <= a < b < links.len() ==> !((#[trigger] links[a]).note_id == (
            #[trigger] links[b]).note_id && links[a].tag_id == links[b].tag_id),
    ensures
        forall|a: int, b: int|
            0 <= a < b < links_without(links, id).len() ==> !((#[trigger] links_without(
                links,
                id,
            )[a]).note_id == (#[trigger] links_without(links, id)[b]).note_id && links_without(
                links,
                id,
            )[a].tag_id == links_without(links, id)[b].tag_id),
    decreases links.len(),
{
    if links.len() > 0 {
        assert forall|k: int|
            0 <= k < links.drop_last().len() implies links.drop_last()[k] == links[k] by {}
        lemma_links_without_distinct(links.drop_last(), id);
        lemma_links_without(links.drop_last(), id);
        let prev = links_without(links.drop_last(), id);
        if links.last().note_id != id {
            assert forall|a: int, b: int|
                0 <= a < b < links_without(links, id).len() implies !((#[trigger] links_without(
                links,
                id,
            )[a]).note_id == (#[trigger] links_without(links, id)[b]).note_id && links_without(
                links,
                id,
            )[a].tag_id == links_without(links, id)[b].tag_id) by {
                if b == prev.len() {
                    assert(links_without(links, id)[a] == prev[a]);
                    assert(links_without(links, id)[b] == links.last());
                    if prev[a].note_id == links.last().note_id && prev[a].tag_id
                        == links.last().tag_id {
                        assert(prev.contains(prev[a]));
                        assert(links.drop_last().contains(prev[a]));
                        let u = choose|u: int|
                            0 <= u < links.drop_last().len() && links.drop_last()[u] == prev[a];
                        assert(links[u] == prev[a]);
                        assert(!(links[u].note_id == links[links.len() - 1].note_id
                            && links[u].tag_id == links[links.len() - 1].tag_id));
                    }
                } else {
                    assert(links_without(links, id)[a] == prev[a]);
                    assert(links_without(links, id)[b] == prev[b]);
                }
            }
        }
    }
}

/// Filtering away the links of an id that has none is the identity.
pub proof fn lemma_links_without_absent(links: Seq<LinkV>, id: Seq<char>)
    requires
        forall|i: int| 0 <= i < links.len() ==> (#[trigger] links[i]).note_id != id,
    ensures
        links_without(links, id) =~= links,
    decreases links.len(),
{
    if links.len() > 0 {
        assert forall|k: int|
            0 <= k < links.drop_last().len() implies (#[trigger] links.drop_last()[k]).note_id
            != id by {
            assert(links.drop_last()[k] == links[k]);
        }
        lemma_links_without_absent(links.drop_last(), id);
        assert(links.last().note_id != id);
        assert(links_without(links, id) =~= links.drop_last().push(links.last()));
        assert(links.drop_last().push(links.last()) =~= links);
    }
}

/// The tag relation after upserting `norm`: existing rows untouched, one new
/// row per name of `norm` that had none, in order.
pub open spec fn tags_grown(pre: Seq<TagV>, post: Seq<TagV>, norm: Seq<Seq<char>>) -> bool {
    &&& post.len() == pre.len() + fresh_of(pre, norm).len()
    &&& post.take(pre.len() as int) =~= pre
    &&& forall|k: int|
        pre.len() <= k < post.len() ==> (#[trigger] post[k]).name == fresh_of(pre, norm)[k
            - pre.len()]
}

/// The whole effect of making `norm` the exact tag set of note `id`: notes
/// and index untouched, tags upserted, the links of `id` replaced by one link
/// per name of `norm`, every other note's tag set untouched.
pub open spec fn relinked(pre: StoreView, post: StoreView, id: Seq<char>, norm: Seq<Seq<char>>) -> bool {
    &&& post.notes =~= pre.notes
    &&& post.fts =~= pre.fts
    &&& tags_grown(pre.tags, post.tags, norm)
    &&& post.links.take(links_without(pre.links, id).len() as int) =~= links_without(pre.links, id)
    &&& post.links.len() == links_without(pre.links, id).len() + norm.len()
    &&& forall|k: int|
        links_without(pre.links, id).len() <= k < post.links.len() ==> (
        #[trigger] post.links[k]).note_id == id
    &&& forall|name: Seq<char>| #[trigger] note_has_tag(post, id, name) <==> norm.contains(name)
    &&& forall|oid: Seq<char>, name: Seq<char>|
        oid != id ==> (#[trigger] note_has_tag(post, oid, name) <==> note_has_tag(pre, oid, name))
}

/// Whether the engine can still assign ids to the tag names of `norm` that
/// are not in `tags` yet.
pub open spec fn can_alloc(tags: Seq<TagV>, norm: Seq<Seq<char>>) -> bool {
    max_id_of(tags) + fresh_of(tags, norm).len() <= u64::MAX
}

/// The whole effect of inserting a fresh note at time `now` with the
/// normalized tag list `norm`.
pub open spec fn insert_effect(
    pre: StoreView,
    post: StoreView,
    id: Seq<char>,
    content: Seq<char>,
    norm: Seq<Seq<char>>,
    now: u64,
) -> bool {
    let mid = StoreView {
        notes: pre.notes.push(
            NoteV {
                id: id,
                content: content,
                created_at: now,
                updated_at: now,
                deleted_at: None,
                pinned: false,
            },
        ),
        fts: pre.fts.push(FtsV { note_id: id, content: content }),
        tags: pre.tags,
        links: pre.links,
    };
    relinked(mid, post, id, norm)
}

/// The names of the first `i` tag rows that are linked to `id`, in row order.
pub open spec fn linked_names(v: StoreView, id: Seq<char>, i: int) -> Seq<Seq<char>>
    decreases i,
{
    if i <= 0 {
        Seq::empty()
    } else {
        let prev = linked_names(v, id, i - 1);
        if linked(v, id, v.tags[i - 1].id) {
            prev.push(v.tags[i - 1].name)
        } else {
            prev
        }
    }
}

pub proof fn lemma_linked_names(v: StoreView, id: Seq<char>, i: int)
    requires
        v.wf(),
        0 <= i <= v.tags.len(),
    ensures
        forall|n: Seq<char>| #[trigger]
            linked_names(v, id, i).contains(n) <==> exists|w: int|
                0 <= w < i && (#[trigger] v.tags[w]).name == n && linked(v, id, v.tags[w].id),
        linked_names(v, id, i).no_duplicates(),
    decreases i,
{
    if i > 0 {
        lemma_linked_names(v, id, i - 1);
        let prev = linked_names(v, id, i - 1);
        let cur = linked_names(v, id, i);
        assert forall|n: Seq<char>| #[trigger] cur.contains(n) implies exists|w: int|
            0 <= w < i && (#[trigger] v.tags[w]).name == n && linked(v, id, v.tags[w].id) by {
            let m = choose|m: int| 0 <= m < cur.len() && cur[m] == n;
            if m < prev.len() {
                assert(prev[m] == n);
                assert(prev.contains(n));
            } else {
                assert(n == v.tags[i - 1].name);
            }
        }
        assert forall|n: Seq<char>|
            (exists|w: int|
                0 <= w < i && (#[trigger] v.tags[w]).name == n && linked(
                    v,
                    id,
                    v.tags[w].id,
                )) implies #[trigger] cur.contains(n) by {
            let w = choose|w: int|
                0 <= w < i && (#[trigger] v.tags[w]).name == n && linked(v, id, v.tags[w].id);
            if w < i - 1 {
                assert(prev.contains(n));
                let m = choose|m: int| 0 <= m < prev.len() && prev[m] == n;
                assert(cur[m] == n);
            } else {
                assert(cur.last() == n);
            }
        }
        assert(cur.no_duplicates()) by {
            if linked(v, id, v.tags[i - 1].id) {
                assert forall|m1: int, m2: int|
                    0 <= m1 < m2 < cur.len() implies (#[trigger] cur[m1]) != (
                #[trigger] cur[m2]) by {
                    if m2 == prev.len() {
                        assert(cur[m1] == prev[m1]);
                        if prev[m1] == v.tags[i - 1].name {
                            assert(prev.contains(prev[m1]));
                            let w = choose|w: int|
                                0 <= w < i - 1 && (#[trigger] v.tags[w]).name == prev[m1]
                                    && linked(v, id, v.tags[w].id);
                            assert(v.tags[w].name != v.tags[i - 1].name);
                        }
                    } else {
                        assert(cur[m1] == prev[m1]);
                        assert(cur[m2] == prev[m2]);
                    }
                }
            }
        }
    }
}

/// The names of the first `i` tag rows that start with `p`, in row order.
pub open spec fn prefix_names(v: StoreView, p: Seq<char>, i: int) -> Seq<Seq<char>>
    decreases i,
{
    if i <= 0 {
        Seq::empty()
    } else {
        let prev = prefix_names(v, p, i - 1);
        if p.is_prefix_of(v.tags[i - 1].name) {
            prev.push(v.tags[i - 1].name)
        } else {
            prev
        }
    }
}

pub proof fn lemma_prefix_names(v: StoreView, p: Seq<char>, i: int)
    requires
        v.wf(),
        0 <= i <= v.tags.len(),
    ensures
        forall|n: Seq<char>| #[trigger]
            prefix_names(v, p, i).contains(n) <==> exists|w: int|
                0 <= w < i && (#[trigger] v.tags[w]).name == n && p.is_prefix_of(v.tags[w].name),
        prefix_names(v, p, i).no_duplicates(),
    decreases i,
{
    if i > 0 {
        lemma_prefix_names(v, p, i - 1);
        let prev = prefix_names(v, p, i - 1);
        let cur = prefix_names(v, p, i);
        assert forall|n: Seq<char>| #[trigger] cur.contains(n) implies exists|w: int|
            0 <= w < i && (#[trigger] v.tags[w]).name == n && p.is_prefix_of(
                v.tags[w].name,
            ) by {
            let m = choose|m: int| 0 <= m < cur.len() && cur[m] == n;
            if m < prev.len() {
                assert(prev[m] == n);
                assert(prev.contains(n));
            } else {
                assert(n == v.tags[i - 1].name);
            }
        }
        assert forall|n: Seq<char>|
            (exists|w: int|
                0 <= w < i && (#[trigger] v.tags[w]).name == n && p.is_prefix_of(
                    v.tags[w].name,
                )) implies #[trigger] cur.contains(n) by {
            let w = choose|w: int|
                0 <= w < i && (#[trigger] v.tags[w]).name == n && p.is_prefix_of(v.tags[w].name);
            if w < i - 1 {
                assert(prev.contains(n));
                let m = choose|m: int| 0 <= m < prev.len() && prev[m] == n;
                assert(cur[m] == n);
            } else {
                assert(cur.last() == n);
            }
        }
        assert(cur.no_duplicates()) by {
            if p.is_prefix_of(v.tags[i - 1].name) {
                assert forall|m1: int, m2: int|
                    0 <= m1 < m2 < cur.len() implies (#[trigger] cur[m1]) != (
                #[trigger] cur[m2]) by {
                    if m2 == prev.len() {
                        assert(cur[m1] == prev[m1]);
                        if prev[m1] == v.tags[i - 1].name {
                            assert(prev.contains(prev[m1]));
                            let w = choose|w: int|
                                0 <= w < i - 1 && (#[trigger] v.tags[w]).name == prev[m1]
                                    && p.is_prefix_of(v.tags[w].name);
                            assert(v.tags[w].name != v.tags[i - 1].name);
                        }
                    } else {
                        assert(cur[m1] == prev[m1]);
                        assert(cur[m2] == prev[m2]);
                    }
                }
            }
        }
    }
}

/// The lowercase forms of a token list.
pub open spec fn lowers(ts: Seq<Seq<char>>) -> Seq<Seq<char>> {
    ts.map_values(|t: Seq<char>| lower_of(t))
}

/// Whether every token of `q` is present in `c`.
pub open spec fn all_in(q: Seq<Seq<char>>, c: Seq<Seq<char>>) -> bool {
    forall|k: int| 0 <= k < q.len() ==> c.contains(#[trigger] q[k])
}

/// Whether `content` matches the full-text query `q`: every token of the
/// query occurs, up to lowercasing, among the tokens of the content.
pub open spec fn fts_match(content: Seq<char>, q: Seq<char>) -> bool {
    all_in(lowers(runs(q)), lowers(runs(content)))
}

/// How many tokens of `toks` lie in `q`.
pub open spec fn count_in(toks: Seq<Seq<char>>, q: Seq<Seq<char>>) -> int
    decreases toks.len(),
{
    if toks.len() == 0 {
        0
    } else {
        count_in(toks.drop_last(), q) + if q.contains(toks.last()) {
            1int
        } else {
            0int
        }
    }
}

/// The relevance rank of a note's content against the lowercased query
/// tokens `qlow`: the number of content tokens that are query tokens.
pub open spec fn rank_of(content: Seq<char>, qlow: Seq<Seq<char>>) -> int {
    count_in(lowers(runs(content)), qlow)
}

/// Whether note `i` satisfies every search filter: it is live, matches the
/// trimmed query `qt` when one was given, and carries every tag of `tn`.
pub open spec fn note_matches(v: StoreView, i: int, qt: Seq<char>, tn: Seq<Seq<char>>) -> bool {
    &&& live(v.notes[i])
    &&& qt.len() > 0 ==> fts_match(v.notes[i].content, qt)
    &&& forall|k: int| 0 <= k < tn.len() ==> note_has_tag(v, v.notes[i].id, #[trigger] tn[k])
}

/// Whether note `a` sorts no later than note `b`: by relevance rank then by
/// update stamp when a query was given, by update stamp alone otherwise.
pub open spec fn ranked_before(
    v: StoreView,
    qlow: Seq<Seq<char>>,
    hasq: bool,
    a: int,
    b: int,
) -> bool {
    if hasq {
        let ra = rank_of(v.notes[a].content, qlow);
        let rb = rank_of(v.notes[b].content, qlow);
        ra > rb || (ra == rb && v.notes[a].updated_at >= v.notes[b].updated_at)
    } else {
        v.notes[a].updated_at >= v.notes[b].updated_at
    }
}

/// A search candidate: a note index with its sort keys.
#[derive(Clone, Copy, PartialEq, Eq, Structural)]
pub struct Cand {
    pub idx: usize,
    pub rank: usize,
    pub updated: u64,
}

/// Whether candidate `x` sorts no later than candidate `y`.
pub open spec fn cand_geq(hasq: bool, x: Cand, y: Cand) -> bool {
    if hasq {
        x.rank > y.rank || (x.rank == y.rank && x.updated >= y.updated)
    } else {
        x.updated >= y.updated
    }
}

/// The candidates among the first `i` notes, in row order.
pub open spec fn cand_seq(
    v: StoreView,
    qt: Seq<char>,
    tn: Seq<Seq<char>>,
    qlow: Seq<Seq<char>>,
    i: int,
) -> Seq<Cand>
    decreases i,
{
    if i <= 0 {
        Seq::empty()
    } else {
        let prev = cand_seq(v, qt, tn, qlow, i - 1);
        if note_matches(v, i - 1, qt, tn) {
            prev.push(
                Cand {
                    idx: (i - 1) as usize,
                    rank: rank_of(v.notes[i - 1].content, qlow) as usize,
                    updated: v.notes[i - 1].updated_at,
                },
            )
        } else {
            prev
        }
    }
}

/// How many of the first `i` notes match.
pub open spec fn match_count(
    v: StoreView,
    qt: Seq<char>,
    tn: Seq<Seq<char>>,
    qlow: Seq<Seq<char>>,
    i: int,
) -> int {
    cand_seq(v, qt, tn, qlow, i).len() as int
}

pub proof fn lemma_cand_seq(
    v: StoreView,
    qt: Seq<char>,
    tn: Seq<Seq<char>>,
    qlow: Seq<Seq<char>>,
    i: int,
)
    requires
        0 <= i <= v.notes.len(),
        i <= usize::MAX,
    ensures
        forall|k: int|
            0 <= k < cand_seq(v, qt, tn, qlow, i).len() ==> {
                let c = #[trigger] cand_seq(v, qt, tn, qlow, i)[k];
                &&& 0 <= c.idx < i
                &&& note_matches(v, c.idx as int, qt, tn)
                &&& c.rank == rank_of(v.notes[c.idx as int].content, qlow) as usize
                &&& c.updated == v.notes[c.idx as int].updated_at
            },
        forall|k1: int, k2: int|
            0 <= k1 < k2 < cand_seq(v, qt, tn, qlow, i).len() ==> (#[trigger] cand_seq(
                v,
                qt,
                tn,
                qlow,
                i,
            )[k1]).idx < (#[trigger] cand_seq(v, qt, tn, qlow, i)[k2]).idx,
        forall|j: int|
            0 <= j < i && note_matches(v, j, qt, tn) ==> exists|k: int|
                0 <= k < cand_seq(v, qt, tn, qlow, i).len() && (#[trigger] cand_seq(
                    v,
                    qt,
                    tn,
                    qlow,
                    i,
                )[k]).idx == j,
    decreases i,
{
    if i > 0 {
        lemma_cand_seq(v, qt, tn, qlow, i - 1);
        let prev = cand_seq(v, qt, tn, qlow, i - 1);
        let cur = cand_seq(v, qt, tn, qlow, i);
        assert forall|k: int| 0 <= k < cur.len() implies {
            let c = #[trigger] cur[k];
            &&& 0 <= c.idx < i
            &&& note_matches(v, c.idx as int, qt, tn)
            &&& c.rank == rank_of(v.notes[c.idx as int].content, qlow) as usize
            &&& c.updated == v.notes[c.idx as int].updated_at
        } by {
            if k < prev.len() {
                assert(cur[k] == prev[k]);
            }
        }
        assert forall|k1: int, k2: int| 0 <= k1 < k2 < cur.len() implies (
        #[trigger] cur[k1]).idx < (#[trigger] cur[k2]).idx by {
            if k2 < prev.len() {
                assert(cur[k1] == prev[k1] && cur[k2] == prev[k2]);
            } else if k2 == prev.len() && cur.len() > prev.len() {
                assert(cur[k1] == prev[k1]);
                assert(cur[k2].idx == i - 1);
            }
        }
        assert forall|j: int| 0 <= j < i && note_matches(v, j, qt, tn) implies exists|k: int|
            0 <= k < cur.len() && (#[trigger] cur[k]).idx == j by {
            if j < i - 1 {
                let k = choose|k: int| 0 <= k < prev.len() && (#[trigger] prev[k]).idx == j;
                assert(cur[k] == prev[k]);
            } else {
                assert(cur.last().idx == j);
            }
        }
    }
}

/// Whether some item of `items` carries the id `id`.
pub open spec fn has_id(items: Seq<NoteListItem>, id: Seq<char>) -> bool {
    exists|k: int| 0 <= k < items.len() && (#[trigger] items[k]).id@ == id
}

/// Against an empty token list nothing counts.
pub proof fn lemma_count_in_empty(toks: Seq<Seq<char>>)
    ensures
        count_in(toks, Seq::<Seq<char>>::empty()) == 0,
    decreases toks.len(),
{
    if toks.len() > 0 {
        lemma_count_in_empty(toks.drop_last());
    }
}

/// Connects the sorted, truncated candidate list and the materialized items
/// to the search contract.
#[verifier::rlimit(100)]
#[verifier::spinoff_prover]
proof fn lemma_search_shape(
    v: StoreView,
    qt: Seq<char>,
    tn: Seq<Seq<char>>,
    qlow: Seq<Seq<char>>,
    hasq: bool,
    all: Seq<Cand>,
    sv0: Seq<Cand>,
    svt: Seq<Cand>,
    items: Seq<NoteListItem>,
    limit: i64,
)
    requires
        v.wf(),
        v.notes.len() <= usize::MAX,
        hasq == (qt.len() > 0),
        all == cand_seq(v, qt, tn, qlow, v.notes.len() as int),
        forall|k: int|
            0 <= k < all.len() ==> (#[trigger] all[k]).rank as int == rank_of(
                v.notes[all[k].idx as int].content,
                qlow,
            ),
        sv0.len() == all.len(),
        forall|a: int, b: int| 0 <= a < b < sv0.len() ==> cand_geq(hasq, sv0[a], sv0[b]),
        sv0.no_duplicates(),
        forall|a: int| 0 <= a < sv0.len() ==> all.contains(#[trigger] sv0[a]),
        forall|c: Cand| #[trigger] all.contains(c) ==> sv0.contains(c),
        limit > 0,
        svt.len() == (if sv0.len() <= limit {
            sv0.len() as int
        } else {
            limit as int
        }),
        forall|a: int| 0 <= a < svt.len() ==> (#[trigger] svt[a]) == sv0[a],
        items.len() == svt.len(),
        forall|a: int|
            0 <= a < items.len() ==> 0 <= (#[trigger] svt[a]).idx < v.notes.len(),
        forall|a: int|
            0 <= a < items.len() ==> (#[trigger] items[a]).id@ == v.notes[svt[a].idx as int].id
                && items[a].preview@ == v.notes[svt[a].idx as int].content,
    ensures
        items.len() == (if match_count(v, qt, tn, qlow, v.notes.len() as int) <= limit {
            match_count(v, qt, tn, qlow, v.notes.len() as int)
        } else {
            limit as int
        }),
        forall|k: int|
            0 <= k < items.len() ==> {
                let i = note_at(v, (#[trigger] items[k]).id@);
                &&& has_note(v, items[k].id@)
                &&& note_matches(v, i, qt, tn)
                &&& items[k].preview@ == v.notes[i].content
            },
        forall|k1: int, k2: int|
            0 <= k1 < k2 < items.len() ==> (#[trigger] items[k1]).id@ != (
            #[trigger] items[k2]).id@,
        forall|k1: int, k2: int|
            0 <= k1 < k2 < items.len() ==> ranked_before(
                v,
                qlow,
                hasq,
                note_at(v, (#[trigger] items[k1]).id@),
                note_at(v, (#[trigger] items[k2]).id@),
            ),
        forall|j: int|
            (0 <= j < v.notes.len() && note_matches(v, j, qt, tn) && !has_id(
                items,
                (#[trigger] v.notes[j]).id,
            )) ==> (items.len() == limit && (forall|k: int|
                0 <= k < items.len() ==> ranked_before(
                    v,
                    qlow,
                    hasq,
                    note_at(v, (#[trigger] items[k]).id@),
                    j,
                ))),
{
    lemma_cand_seq(v, qt, tn, qlow, v.notes.len() as int);
    // facts about every listed candidate
    assert forall|a: int| 0 <= a < items.len() implies {
        &&& note_matches(v, svt[a].idx as int, qt, tn)
        &&& (#[trigger] svt[a]).rank as int == rank_of(v.notes[svt[a].idx as int].content, qlow)
        &&& svt[a].updated == v.notes[svt[a].idx as int].updated_at
        &&& note_at(v, items[a].id@) == svt[a].idx as int
        &&& has_note(v, items[a].id@)
    } by {
        assert(all.contains(sv0[a]));
        let p = choose|p: int| 0 <= p < all.len() && all[p] == svt[a];
        assert(v.notes[svt[a].idx as int].id == items[a].id@);
        assert(has_note(v, items[a].id@));
        let w = note_at(v, items[a].id@);
        assert(0 <= w < v.notes.len() && v.notes[w].id == items[a].id@);
        if w != svt[a].idx as int {
            assert(v.notes[w].id != v.notes[svt[a].idx as int].id);
        }
    }
    // distinct ids, and the published order
    assert forall|k1: int, k2: int| 0 <= k1 < k2 < items.len() implies (
    #[trigger] items[k1]).id@ != (#[trigger] items[k2]).id@ && ranked_before(
        v,
        qlow,
        hasq,
        note_at(v, items[k1].id@),
        note_at(v, items[k2].id@),
    ) by {
        assert(svt[k1] == sv0[k1] && svt[k2] == sv0[k2]);
        assert(sv0[k1] != sv0[k2]);
        if svt[k1].idx == svt[k2].idx {
            assert(svt[k1] == svt[k2]);
        }
        assert(v.notes[svt[k1].idx as int].id != v.notes[svt[k2].idx as int].id);
        assert(cand_geq(hasq, sv0[k1], sv0[k2]));
    }
    // the length is the lesser of the limit and the number of matches
    assert(match_count(v, qt, tn, qlow, v.notes.len() as int) == all.len());
    // a matching note missing from the results bounds them
    assert forall|j: int|
        (0 <= j < v.notes.len() && note_matches(v, j, qt, tn) && !has_id(
            items,
            (#[trigger] v.notes[j]).id,
        )) implies (items.len() == limit && (forall|k: int|
        0 <= k < items.len() ==> ranked_before(
            v,
            qlow,
            hasq,
            note_at(v, (#[trigger] items[k]).id@),
            j,
        ))) by {
        let k0 = choose|k0: int| 0 <= k0 < all.len() && (#[trigger] all[k0]).idx == j;
        let cj = all[k0];
        assert(all.contains(cj));
        assert(sv0.contains(cj));
        let u = choose|u: int| 0 <= u < sv0.len() && sv0[u] == cj;
        if u < items.len() {
            assert(svt[u] == sv0[u]);
            assert(items[u].id@ == v.notes[j].id);
            assert(has_id(items, v.notes[j].id));
        }
        assert(u >= items.len());
        assert(items.len() == limit);
        assert forall|k: int| 0 <= k < items.len() implies ranked_before(
            v,
            qlow,
            hasq,
            note_at(v, (#[trigger] items[k]).id@),
            j,
        ) by {
            assert(svt[k] == sv0[k]);
            assert(cand_geq(hasq, sv0[k], sv0[u]));
            assert(cj.rank as int == rank_of(v.notes[j].content, qlow));
            assert(cj.updated == v.notes[j].updated_at);
            assert(note_at(v, items[k].id@) == svt[k].idx as int);
        }
    }
}

/// The content the engine reports for `id`: the live note's content, or
/// nothing when `id` is unknown or soft-deleted.
pub open spec fn content_of(v: StoreView, id: Seq<char>) -> Option<Seq<char>> {
    if has_live_note(v, id) {
        Some(v.notes[note_at(v, id)].content)
    } else {
        None
    }
}

/// The updated-at stamp of a rewritten note: the clock reading, unless the
/// clock stepped back before the note's creation.
pub open spec fn stamp(created_at: u64, now: u64) -> u64 {
    if now >= created_at {
        now
    } else {
        created_at
    }
}

/// The whole effect of rewriting the content of note `id` at time `now`:
/// content and stamp replaced and the index row rewritten when a live note
/// carries `id`, everything untouched otherwise.
pub open spec fn update_effect(
    pre: StoreView,
    post: StoreView,
    id: Seq<char>,
    content: Seq<char>,
    now: u64,
) -> bool {
    if has_live_note(pre, id) {
        let i = note_at(pre, id);
        let n0 = pre.notes[i];
        &&& post.notes =~= pre.notes.update(
            i,
            NoteV {
                id: n0.id,
                content: content,
                created_at: n0.created_at,
                updated_at: stamp(n0.created_at, now),
                deleted_at: n0.deleted_at,
                pinned: n0.pinned,
            },
        )
        &&& post.fts =~= pre.fts.update(i, FtsV { note_id: n0.id, content: content })
        &&& post.tags =~= pre.tags
        &&& post.links =~= pre.links
    } else {
        post =~= pre
    }
}

/// Relies on std::time::SystemTime::now and duration_since(UNIX_EPOCH):
/// whole seconds since the Unix epoch, or `ClockError` when the clock reads
/// before the epoch. Nothing can be promised of the value itself.
#[verifier::external_body]
pub fn now_unix_seconds() -> (r: Result<u64, StorageError>)
    ensures
        r matches Err(e) ==> e == StorageError::ClockError,
{
    match std::time::SystemTime::now().duration_since(std::time::UNIX_EPOCH) {
        Ok(d) => Ok(d.as_secs()),
        Err(_) => Err(StorageError::ClockError),
    }
}

/// Relies on uuid::Uuid::new_v4 and its hyphenated text form: a random
/// version-4 UUID rendered as 36 characters. Nothing else can be promised of
/// a random value.
#[verifier::external_body]
fn fresh_uuid() -> (r: String)
    ensures
        r@.len() == 36,
{
    uuid::Uuid::new_v4().to_string()
}

/// Lowercases each token of `toks`.
fn lower_all(toks: &Vec<String>) -> (r: Vec<String>)
    ensures
        views(r@).len() == views(toks@).len(),
        forall|k: int| 0 <= k < toks@.len() ==> views(r@)[k] == lower_of(#[trigger] views(toks@)[k]),
{
    let mut r: Vec<String> = Vec::new();
    let mut i: usize = 0;
    while i < toks.len()
        invariant
            i <= toks@.len(),
            views(r@).len() == i,
            forall|k: int| 0 <= k < i ==> views(r@)[k] == lower_of(#[trigger] views(toks@)[k]),
        decreases toks@.len() - i,
    {
        let ghost r0 = r@;
        let low = lowercased(toks[i].as_str());
        proof {
            assert(views(toks@)[i as int] == toks@[i as int]@);
        }
        r.push(low);
        proof {
            assert(views(r@) =~= views(r0).push(lower_of(views(toks@)[i as int])));
        }
        i = i + 1;
    }
    r
}

/// Whether every string of `q` occurs in `c`, by value.
fn all_present(q: &Vec<String>, c: &Vec<String>) -> (r: bool)
    ensures
        r == all_in(views(q@), views(c@)),
{
    let mut k: usize = 0;
    while k < q.len()
        invariant
            k <= q@.len(),
            forall|j: int| 0 <= j < k ==> views(c@).contains(#[trigger] views(q@)[j]),
        decreases q@.len() - k,
    {
        if !crate::tags::contains_string(c, &q[k]) {
            proof {
                assert(views(q@)[k as int] == q@[k as int]@);
            }
            return false;
        }
        proof {
            assert(views(q@)[k as int] == q@[k as int]@);
        }
        k = k + 1;
    }
    true
}

/// Counts the strings of `toks` that occur in `q`.
fn count_present(toks: &Vec<String>, q: &Vec<String>) -> (r: usize)
    ensures
        r as int == count_in(views(toks@), views(q@)),
        r <= toks@.len(),
{
    let mut r: usize = 0;
    let mut i: usize = 0;
    proof {
        assert(views(toks@).take(0) =~= Seq::<Seq<char>>::empty());
    }
    while i < toks.len()
        invariant
            i <= toks@.len(),
            r <= i,
            r as int == count_in(views(toks@).take(i as int), views(q@)),
        decreases toks@.len() - i,
    {
        proof {
            assert(views(toks@).take(i + 1).drop_last() =~= views(toks@).take(i as int));
            assert(views(toks@).take(i + 1).last() == views(toks@)[i as int]);
            assert(views(toks@)[i as int] == toks@[i as int]@);
        }
        if crate::tags::contains_string(q, &toks[i]) {
            r = r + 1;
        }
        i = i + 1;
    }
    proof {
        assert(views(toks@).take(toks@.len() as int) =~= views(toks@));
    }
    r
}

/// Sorts candidates best-first under `cand_geq`, keeping the multiset.
fn sort_cands(v: Vec<Cand>, hasq: bool) -> (r: Vec<Cand>)
    ensures
        r@.to_multiset() == v@.to_multiset(),
        r@.len() == v@.len(),
        forall|a: int, b: int| 0 <= a < b < r@.len() ==> cand_geq(hasq, r@[a], r@[b]),
{
    broadcast use vstd::seq_lib::group_to_multiset_ensures;
    broadcast use vstd::multiset::group_multiset_axioms;

    let mut src = v;
    let mut out: Vec<Cand> = Vec::new();
    while src.len() > 0
        invariant
            out@.to_multiset().add(src@.to_multiset()) == v@.to_multiset(),
            out@.len() + src@.len() == v@.len(),
            forall|a: int, b: int| 0 <= a < b < out@.len() ==> cand_geq(hasq, out@[a], out@[b]),
            forall|a: int, b: int|
                0 <= a < out@.len() && 0 <= b < src@.len() ==> cand_geq(hasq, out@[a], src@[b]),
        decreases src.len(),
    {
        let mut m: usize = 0;
        let mut j: usize = 1;
        while j < src.len()
            invariant
                0 <= m < j <= src@.len(),
                src@.len() > 0,
                forall|k: int| 0 <= k < j ==> cand_geq(hasq, src@[m as int], #[trigger] src@[k]),
            decreases src.len() - j,
        {
            let better = if hasq {
                src[j].rank > src[m].rank || (src[j].rank == src[m].rank && src[j].updated
                    > src[m].updated)
            } else {
                src[j].updated > src[m].updated
            };
            if better {
                m = j;
            }
            j = j + 1;
        }
        let ghost spre = src@;
        let x = src.remove(m);
        proof {
            assert(x == spre[m as int]);
            assert(src@ =~= spre.remove(m as int));
            vstd::seq_lib::to_multiset_remove(spre, m as int);
            vstd::seq_lib::to_multiset_contains(spre, x);
            assert(spre.to_multiset().count(x) > 0) by {
                assert(spre.contains(x));
            }
        }
        let ghost opre = out@;
        out.push(x);
        proof {
            assert(out@ =~= opre.push(x));
            vstd::seq_lib::to_multiset_build(opre, x);
            assert(out@.to_multiset().add(src@.to_multiset()) =~= opre.to_multiset().add(
                spre.to_multiset(),
            ));
            assert forall|a: int, b: int|
                0 <= a < out@.len() && 0 <= b < src@.len() implies cand_geq(
                hasq,
                out@[a],
                src@[b],
            ) by {
                let b0: int = if b < m as int {
                    b
                } else {
                    b + 1
                };
                assert(src@[b] == spre[b0]);
                if a < out@.len() - 1 {
                    assert(out@[a] == opre[a]);
                } else {
                    assert(out@[a] == x);
                    assert(cand_geq(hasq, spre[m as int], spre[b0]));
                }
            }
        }
    }
    proof {
        assert(src@.to_multiset() =~= Multiset::<Cand>::empty());
        assert(out@.to_multiset().add(src@.to_multiset()) =~= out@.to_multiset());
    }
    out
}

/// The storage engine: the in-memory image of the four relations.
pub struct Store {
    notes: Vec<NoteRow>,
    tags: Vec<TagRow>,
    links: Vec<LinkRow>,
    fts: Vec<FtsRow>,
}

impl View for Store {
    type V = StoreView;

    closed spec fn view(&self) -> StoreView {
        StoreView {
            notes: self.notes@.map_values(|r: NoteRow| r@),
            tags: self.tags@.map_values(|r: TagRow| r@),
            links: self.links@.map_values(|r: LinkRow| r@),
            fts: self.fts@.map_values(|r: FtsRow| r@),
        }
    }
}

impl Store {
    /// A freshly initialized store: every relation empty.
    pub fn new() -> (r: Store)
        ensures
            r@.wf(),
            r@.notes =~= Seq::<NoteV>::empty(),
            r@.tags =~= Seq::<TagV>::empty(),
            r@.links =~= Seq::<LinkV>::empty(),
            r@.fts =~= Seq::<FtsV>::empty(),
    {
        Store { notes: Vec::new(), tags: Vec::new(), links: Vec::new(), fts: Vec::new() }
    }

    /// The position of the note row carrying `id`, if any.
    fn note_pos(&self, id: &str) -> (r: Option<usize>)
        requires
            self@.wf(),
        ensures
            match r {
                Some(i) => i < self@.notes.len() && self@.notes[i as int].id == id@ && note_at(
                    self@,
                    id@,
                ) == i as int && has_note(self@, id@),
                None => !has_note(self@, id@),
            },
    {
        let mut i: usize = 0;
        while i < self.notes.len()
            invariant
                self@.wf(),
                i <= self.notes.len(),
                self@.notes.len() == self.notes@.len(),
                forall|j: int| 0 <= j < i ==> (#[trigger] self@.notes[j]).id != id@,
                forall|j: int| 0 <= j < self.notes@.len() ==> self@.notes[j] == self.notes@[j]@,
            decreases self.notes.len() - i,
        {
            if self.notes[i].id == id.to_owned() {
                proof {
                    assert(self@.notes[i as int].id == id@);
                    assert(has_note(self@, id@));
                    let w = note_at(self@, id@);
                    assert(0 <= w < self@.notes.len() && self@.notes[w].id == id@);
                    if w != i as int {
                        assert(self@.notes[w].id != self@.notes[i as int].id);
                    }
                }
                return Some(i);
            }
            i = i + 1;
        }
        None
    }

    /// The position of the tag row named `name`, if any.
    fn tag_pos(&self, name: &String) -> (r: Option<usize>)
        requires
            self@.wf(),
        ensures
            match r {
                Some(i) => i < self@.tags.len() && self@.tags[i as int].name == name@ && tag_at(
                    self@,
                    name@,
                ) == i as int && has_tag(self@, name@),
                None => !has_tag(self@, name@),
            },
    {
        let mut i: usize = 0;
        while i < self.tags.len()
            invariant
                self@.wf(),
                i <= self.tags.len(),
                self@.tags.len() == self.tags@.len(),
                forall|j: int| 0 <= j < i ==> (#[trigger] self@.tags[j]).name != name@,
                forall|j: int| 0 <= j < self.tags@.len() ==> self@.tags[j] == self.tags@[j]@,
            decreases self.tags.len() - i,
        {
            if self.tags[i].name.eq(name) {
                proof {
                    assert(self@.tags[i as int].name == name@);
                    assert(has_tag(self@, name@));
                    let w = tag_at(self@, name@);
                    assert(0 <= w < self@.tags.len() && self@.tags[w].name == name@);
                    if w != i as int {
                        assert(self@.tags[w].name != self@.tags[i as int].name);
                    }
                }
                return Some(i);
            }
            i = i + 1;
        }
        None
    }

    /// The largest tag id currently assigned.
    fn max_tag_id(&self) -> (r: u64)
        ensures
            r == max_id_of(self@.tags),
    {
        let mut r: u64 = 0;
        let mut i: usize = 0;
        proof {
            assert(self@.tags.take(0) =~= Seq::<TagV>::empty());
        }
        while i < self.tags.len()
            invariant
                i <= self.tags.len(),
                self@.tags.len() == self.tags@.len(),
                forall|j: int| 0 <= j < self.tags@.len() ==> self@.tags[j] == self.tags@[j]@,
                r == max_id_of(self@.tags.take(i as int)),
            decreases self.tags.len() - i,
        {
            proof {
                assert(self@.tags.take(i + 1).drop_last() =~= self@.tags.take(i as int));
                assert(self@.tags.take(i + 1).last() == self@.tags[i as int]);
            }
            if self.tags[i].id > r {
                r = self.tags[i].id;
            }
            i = i + 1;
        }
        proof {
            assert(self@.tags.take(self.tags@.len() as int) =~= self@.tags);
        }
        r
    }

    /// The names in `norm` that have no tag row yet, in order.
    fn fresh_tags(&self, norm: &Vec<String>) -> (r: Vec<String>)
        requires
            self@.wf(),
        ensures
            views(r@) == fresh_of(self@.tags, views(norm@)),
    {
        let mut r: Vec<String> = Vec::new();
        let mut i: usize = 0;
        proof {
            assert(views(norm@).take(0) =~= Seq::<Seq<char>>::empty());
            assert(views(r@) =~= Seq::<Seq<char>>::empty());
        }
        while i < norm.len()
            invariant
                self@.wf(),
                i <= norm.len(),
                views(r@) == fresh_of(self@.tags, views(norm@).take(i as int)),
            decreases norm.len() - i,
        {
            proof {
                assert(views(norm@).take(i + 1).drop_last() =~= views(norm@).take(i as int));
                assert(views(norm@).take(i + 1).last() == views(norm@)[i as int]);
                assert(views(norm@)[i as int] == norm@[i as int]@);
                assert(has_tag(self@, norm@[i as int]@) == has_tag_name(
                    self@.tags,
                    views(norm@)[i as int],
                ));
            }
            if self.tag_pos(&norm[i]).is_none() {
                let ghost r0 = r@;
                r.push(norm[i].clone());
                proof {
                    assert(views(r@) =~= views(r0).push(views(norm@)[i as int]));
                }
            }
            i = i + 1;
        }
        proof {
            assert(views(norm@).take(norm@.len() as int) =~= views(norm@));
        }
        r
    }

    /// Upserts every name of the normalized, duplicate-free list `norm` into
    /// the tag relation and links `note_id` (which must carry no links yet)
    /// to exactly those names. Fails, leaving the store untouched, only when
    /// the tag id space is exhausted.
    #[verifier::rlimit(80)]
    #[verifier::spinoff_prover]
    fn ensure_tag_links(&mut self, note_id: &String, norm: &Vec<String>) -> (r: Result<
        (),
        StorageError,
    >)
        requires
            old(self)@.wf(),
            has_note(old(self)@, note_id@),
            forall|i: int, j: int|
                0 <= i < j < views(norm@).len() ==> (#[trigger] views(norm@)[i]) != (
                #[trigger] views(norm@)[j]),
            forall|i: int| 0 <= i < views(norm@).len() ==> (#[trigger] views(norm@)[i]).len() > 0,
            forall|i: int|
                0 <= i < old(self)@.links.len() ==> (#[trigger] old(self)@.links[i]).note_id
                    != note_id@,
        ensures
            final(self)@.wf(),
            r is Ok <==> can_alloc(old(self)@.tags, views(norm@)),
            match r {
                Ok(()) => relinked(old(self)@, final(self)@, note_id@, views(norm@)),
                Err(e) => e == StorageError::WriteFailed && final(self)@ =~= old(self)@,
            },
    {
        let ghost o = self@;
        let ghost nv = views(norm@);
        let fresh = self.fresh_tags(norm);
        let ghost fv = fresh_of(o.tags, nv);
        let maxid = self.max_tag_id();
        if fresh.len() > 0 {
            let flen: u64 = fresh.len() as u64;
            if maxid > u64::MAX - flen {
                return Err(StorageError::WriteFailed);
            }
        }
        assert(max_id_of(o.tags) + fv.len() <= u64::MAX);
        proof {
            lemma_fresh_of(o.tags, nv);
            lemma_fresh_of_distinct(o.tags, nv);
            lemma_max_id(o.tags);
        }
        // upsert: append one tag row per fresh name
        proof {
            assert(self@.tags.take(o.tags.len() as int) =~= o.tags);
        }
        let mut k: usize = 0;
        while k < fresh.len()
            invariant
                o.wf(),
                self@.notes == o.notes,
                self@.fts == o.fts,
                self@.links == o.links,
                self@.tags.len() == o.tags.len() + k,
                self@.tags.take(o.tags.len() as int) =~= o.tags,
                views(fresh@) == fv,
                maxid == max_id_of(o.tags),
                maxid + fv.len() <= u64::MAX,
                k <= fresh.len(),
                fresh@.len() == fv.len(),
                forall|m: int|
                    o.tags.len() <= m < self@.tags.len() ==> (#[trigger] self@.tags[m]) == (TagV {
                        id: (maxid + 1 + (m - o.tags.len())) as u64,
                        name: fv[m - o.tags.len()],
                    }),
            decreases fresh.len() - k,
        {
            proof {
                assert(fv[k as int] == fresh@[k as int]@);
            }
            let row = TagRow { id: maxid + 1 + (k as u64), name: fresh[k].clone() };
            let ghost t0 = self@.tags;
            self.tags.push(row);
            proof {
                assert(self@.tags =~= t0.push(row@));
                assert(self@.tags.take(o.tags.len() as int) =~= t0.take(o.tags.len() as int));
            }
            k = k + 1;
        }
        let ghost tags2 = self@.tags;
        // the grown tag relation is well formed
        proof {
            assert(tags_grown(o.tags, tags2, nv));
            assert forall|i: int| o.tags.len() <= i < tags2.len() implies tags2[i] == (TagV {
                id: (maxid + 1 + (i - o.tags.len())) as u64,
                name: fv[i - o.tags.len()],
            }) by {}
            assert forall|i: int| 0 <= i < o.tags.len() implies tags2[i] == o.tags[i] by {
                assert(tags2.take(o.tags.len() as int)[i] == tags2[i]);
            }
            assert forall|i: int, j: int| 0 <= i < j < tags2.len() implies (
            #[trigger] tags2[i]).id != (#[trigger] tags2[j]).id && tags2[i].name
                != tags2[j].name by {
                if j < o.tags.len() {
                    assert(tags2[i] == o.tags[i] && tags2[j] == o.tags[j]);
                } else if i < o.tags.len() {
                    assert(tags2[i] == o.tags[i]);
                    assert(tags2[i].id <= maxid);
                    assert(!has_tag_name(o.tags, fv[j - o.tags.len()]));
                    if tags2[i].name == tags2[j].name {
                        assert(has_tag_name(o.tags, tags2[i].name));
                    }
                }
            }
            assert forall|i: int| 0 <= i < tags2.len() implies (#[trigger] tags2[i]).name.len()
                > 0 by {
                if i < o.tags.len() {
                    assert(tags2[i] == o.tags[i]);
                } else {
                    assert(tags2[i].name == fv[i - o.tags.len()]);
                    assert(nv.contains(fv[i - o.tags.len()]));
                    let w = choose|w: int| 0 <= w < nv.len() && nv[w] == fv[i - o.tags.len()];
                }
            }
            assert(self@.wf()) by {
                assert forall|i: int|
                    0 <= i < self@.links.len() implies has_tag_id(
                    self@,
                    (#[trigger] self@.links[i]).tag_id,
                ) by {
                    assert(o.links[i] == self@.links[i]);
                    assert(has_tag_id(o, o.links[i].tag_id));
                    let w = choose|w: int|
                        0 <= w < o.tags.len() && (#[trigger] o.tags[w]).id == o.links[i].tag_id;
                    assert(tags2[w] == o.tags[w]);
                }
                assert forall|i: int|
                    0 <= i < self@.links.len() implies has_note(
                    self@,
                    (#[trigger] self@.links[i]).note_id,
                ) by {
                    assert(o.links[i] == self@.links[i]);
                    assert(has_note(o, o.links[i].note_id));
                    let w = choose|w: int|
                        0 <= w < o.notes.len() && (#[trigger] o.notes[w]).id
                            == o.links[i].note_id;
                    assert(self@.notes[w].id == o.links[i].note_id);
                }
            }
        }
        // every name of norm now has a tag row
        proof {
            assert forall|m: int| 0 <= m < nv.len() implies has_tag_name(
                tags2,
                #[trigger] nv[m],
            ) by {
                if has_tag_name(o.tags, nv[m]) {
                    let w = choose|w: int|
                        0 <= w < o.tags.len() && (#[trigger] o.tags[w]).name == nv[m];
                    assert(tags2[w] == o.tags[w]);
                } else {
                    assert(fv.contains(nv[m])) by {
                        assert(nv.contains(nv[m]));
                    }
                    let w = choose|w: int| 0 <= w < fv.len() && fv[w] == nv[m];
                    assert(tags2[o.tags.len() + w].name == fv[w]);
                }
            }
        }
        // link the note to each name, in order
        let ghost l0 = self@.links;
        proof {
            assert(self@.links.take(l0.len() as int) =~= l0);
        }
        let mut k: usize = 0;
        while k < norm.len()
            invariant
                self@.wf(),
                self@.notes == o.notes,
                self@.fts == o.fts,
                self@.tags == tags2,
                self@.links.len() == l0.len() + k,
                self@.links.take(l0.len() as int) =~= l0,
                l0 == o.links,
                nv == views(norm@),
                k <= norm.len(),
                has_note(o, note_id@),
                forall|i: int, j: int|
                    0 <= i < j < nv.len() ==> (#[trigger] nv[i]) != (#[trigger] nv[j]),
                forall|i: int| 0 <= i < l0.len() ==> (#[trigger] l0[i]).note_id != note_id@,
                forall|m: int| 0 <= m < nv.len() ==> has_tag_name(tags2, #[trigger] nv[m]),
                forall|m: int|
                    l0.len() <= m < self@.links.len() ==> (#[trigger] self@.links[m]) == (LinkV {
                        note_id: note_id@,
                        tag_id: tag_id_in(tags2, nv[m - l0.len()]),
                    }),
            decreases norm.len() - k,
        {
            proof {
                assert(nv[k as int] == norm@[k as int]@);
                assert(has_tag(self@, norm@[k as int]@));
            }
            let p = self.tag_pos(&norm[k]).unwrap();
            let tid = self.tags[p].id;
            proof {
                assert(self@.tags[p as int] == self.tags@[p as int]@);
                let b = tag_idx_in(tags2, nv[k as int]);
                assert(0 <= b < tags2.len() && tags2[b].name == nv[k as int]);
                if b != p as int {
                    assert(tags2[b].name != tags2[p as int].name);
                }
                assert(tid == tag_id_in(tags2, nv[k as int]));
            }
            let ghost pre_v = self@;
            let ghost lpre = self@.links;
            let new_link = LinkRow { note_id: note_id.clone(), tag_id: tid };
            proof {
                // the new pair is not present yet
                assert forall|i: int|
                    0 <= i < lpre.len() implies !((#[trigger] lpre[i]).note_id == note_id@
                    && lpre[i].tag_id == tid) by {
                    if i < l0.len() {
                        assert(lpre[i] == l0[i]);
                    } else {
                        assert(lpre[i] == LinkV {
                            note_id: note_id@,
                            tag_id: tag_id_in(tags2, nv[i - l0.len()]),
                        });
                        if lpre[i].tag_id == tid {
                            let a = tag_idx_in(tags2, nv[i - l0.len()]);
                            let b = tag_idx_in(tags2, nv[k as int]);
                            assert(0 <= a < tags2.len() && tags2[a].name == nv[i - l0.len()]);
                            assert(0 <= b < tags2.len() && tags2[b].name == nv[k as int]);
                            if a != b {
                                assert(tags2[a].id != tags2[b].id);
                            }
                        }
                    }
                }
            }
            self.links.push(new_link);
            proof {
                assert(self@.links =~= lpre.push(new_link@));
                assert(self@.links.take(l0.len() as int) =~= lpre.take(l0.len() as int));
                assert(self@.wf()) by {
                    assert forall|i: int, j: int|
                        0 <= i < j < self@.links.len() implies !((#[trigger] self@.links[i]).note_id
                        == (#[trigger] self@.links[j]).note_id && self@.links[i].tag_id
                        == self@.links[j].tag_id) by {
                        if j < lpre.len() {
                            assert(self@.links[i] == lpre[i] && self@.links[j] == lpre[j]);
                        } else {
                            assert(self@.links[i] == lpre[i]);
                        }
                    }
                    assert forall|i: int|
                        0 <= i < self@.links.len() implies has_note(
                        self@,
                        (#[trigger] self@.links[i]).note_id,
                    ) && has_tag_id(self@, self@.links[i].tag_id) by {
                        lemma_same_notes(pre_v, self@);
                        lemma_same_tags(pre_v, self@);
                        lemma_same_notes(o, self@);
                        if i < lpre.len() {
                            assert(self@.links[i] == lpre[i]);
                            assert(has_note(pre_v, pre_v.links[i].note_id));
                            assert(has_tag_id(pre_v, pre_v.links[i].tag_id));
                        } else {
                            assert(self@.links[i].note_id == note_id@);
                            assert(has_note(o, note_id@));
                            let b = tag_idx_in(tags2, nv[k as int]);
                            assert(0 <= b < tags2.len() && tags2[b].id == tid);
                            assert(self@.tags[b].id == tid);
                            assert(has_tag_id(self@, tid));
                        }
                    }
                }
            }
            k = k + 1;
        }
        // the note now carries exactly the names of norm; others untouched
        proof {
            lemma_max_id(o.tags);
            assert(links_without(o.links, note_id@) =~= o.links) by {
                lemma_links_without_absent(o.links, note_id@);
            }
            assert forall|name: Seq<char>| #[trigger]
                note_has_tag(self@, note_id@, name) implies nv.contains(name) by {
                let tid = tag_id_in(tags2, name);
                let li = choose|i: int|
                    0 <= i < self@.links.len() && (#[trigger] self@.links[i]).note_id == note_id@
                        && self@.links[i].tag_id == tid;
                assert(li >= l0.len()) by {
                    if li < l0.len() {
                        assert(self@.links[li] == l0[li]);
                    }
                }
                let m = li - l0.len();
                assert(self@.links[li] == LinkV { note_id: note_id@, tag_id: tag_id_in(tags2, nv[m]) });
                let a = tag_idx_in(tags2, nv[m]);
                let b = tag_idx_in(tags2, name);
                assert(0 <= a < tags2.len() && tags2[a].name == nv[m]);
                assert(0 <= b < tags2.len() && tags2[b].name == name);
                if a != b {
                    assert(tags2[a].id != tags2[b].id);
                }
                assert(name == nv[m]);
            }
            assert forall|name: Seq<char>|
                nv.contains(name) implies #[trigger] note_has_tag(self@, note_id@, name) by {
                let m = choose|m: int| 0 <= m < nv.len() && nv[m] == name;
                assert(self@.links[l0.len() + m] == LinkV {
                    note_id: note_id@,
                    tag_id: tag_id_in(tags2, name),
                });
                assert(linked(self@, note_id@, tag_id_in(tags2, name)));
            }
            assert forall|oid: Seq<char>, name: Seq<char>|
                oid != note_id@ implies (#[trigger] note_has_tag(self@, oid, name)
                <==> note_has_tag(o, oid, name)) by {
                if note_has_tag(self@, oid, name) {
                    let tid = tag_id_in(tags2, name);
                    let li = choose|i: int|
                        0 <= i < self@.links.len() && (#[trigger] self@.links[i]).note_id == oid
                            && self@.links[i].tag_id == tid;
                    assert(li < l0.len()) by {
                        if li >= l0.len() {
                            assert(self@.links[li].note_id == note_id@);
                        }
                    }
                    assert(self@.links[li] == l0[li]);
                    assert(has_tag_id(o, tid));
                    let w = tag_idx_in(tags2, name);
                    assert(0 <= w < tags2.len() && tags2[w].name == name);
                    assert(w < o.tags.len()) by {
                        if w >= o.tags.len() {
                            assert(tags2[w].id == (maxid + 1 + (w - o.tags.len())) as u64);
                            let u = choose|u: int|
                                0 <= u < o.tags.len() && (#[trigger] o.tags[u]).id == tid;
                            assert(o.tags[u].id <= maxid);
                        }
                    }
                    assert(tags2[w] == o.tags[w]);
                    assert(has_tag_name(o.tags, name));
                    let w2 = tag_idx_in(o.tags, name);
                    assert(0 <= w2 < o.tags.len() && o.tags[w2].name == name);
                    assert(w2 == w) by {
                        if w2 != w {
                            assert(tags2[w2] == o.tags[w2]);
                            assert(tags2[w2].name != tags2[w].name);
                        }
                    }
                    assert(linked(o, oid, tag_id_in(o.tags, name)));
                } else {
                    if note_has_tag(o, oid, name) {
                        let w2 = tag_idx_in(o.tags, name);
                        assert(0 <= w2 < o.tags.len() && o.tags[w2].name == name);
                        assert(tags2[w2] == o.tags[w2]);
                        assert(has_tag_name(tags2, name));
                        let w = tag_idx_in(tags2, name);
                        assert(0 <= w < tags2.len() && tags2[w].name == name);
                        assert(w == w2) by {
                            if w != w2 {
                                assert(tags2[w].name != tags2[w2].name);
                            }
                        }
                        let li = choose|i: int|
                            0 <= i < o.links.len() && (#[trigger] o.links[i]).note_id == oid
                                && o.links[i].tag_id == tag_id_in(o.tags, name);
                        assert(self@.links[li] == o.links[li]);
                        assert(linked(self@, oid, tag_id_in(tags2, name)));
                        assert(note_has_tag(self@, oid, name));
                    }
                }
            }
            assert(relinked(o, self@, note_id@, nv));
        }
        Ok(())
    }

    /// Inserts a note under the caller-supplied fresh id `id`, stamped with
    /// `now`, indexing its content and linking the normalized tag list.
    /// Fails, leaving the store untouched, when `id` is already taken or the
    /// tag id space is exhausted; the whole operation is atomic.
    pub fn insert_note_with(
        &mut self,
        id: &str,
        now: u64,
        content: &str,
        tags: &Vec<String>,
    ) -> (r: Result<(), StorageError>)
        requires
            old(self)@.wf(),
        ensures
            final(self)@.wf(),
            r is Ok <==> (!has_note(old(self)@, id@) && can_alloc(
                old(self)@.tags,
                normalize_spec(views(tags@)),
            )),
            match r {
                Ok(()) => insert_effect(
                    old(self)@,
                    final(self)@,
                    id@,
                    content@,
                    normalize_spec(views(tags@)),
                    now,
                ),
                Err(e) => e == StorageError::WriteFailed && final(self)@ =~= old(self)@,
            },
    {
        let ghost o = self@;
        let norm = normalize_tags(tags);
        proof {
            lemma_normalize_wf(views(tags@));
        }
        if self.note_pos(id).is_some() {
            return Err(StorageError::WriteFailed);
        }
        let fresh = self.fresh_tags(&norm);
        let maxid = self.max_tag_id();
        if fresh.len() > 0 {
            let flen: u64 = fresh.len() as u64;
            if maxid > u64::MAX - flen {
                return Err(StorageError::WriteFailed);
            }
        }
        assert(can_alloc(o.tags, views(norm@)));
        let row = NoteRow {
            id: id.to_owned(),
            content: content.to_owned(),
            created_at: now,
            updated_at: now,
            deleted_at: None,
            pinned: false,
        };
        let frow = FtsRow { note_id: id.to_owned(), content: content.to_owned() };
        self.notes.push(row);
        self.fts.push(frow);
        let ghost mid = self@;
        proof {
            assert(mid.notes =~= o.notes.push(
                NoteV {
                    id: id@,
                    content: content@,
                    created_at: now,
                    updated_at: now,
                    deleted_at: None,
                    pinned: false,
                },
            ));
            assert(mid.fts =~= o.fts.push(FtsV { note_id: id@, content: content@ }));
            assert(mid.tags == o.tags && mid.links == o.links);
            assert(mid.wf()) by {
                assert forall|i: int, j: int|
                    0 <= i < j < mid.notes.len() implies (#[trigger] mid.notes[i]).id != (
                #[trigger] mid.notes[j]).id by {
                    if j < o.notes.len() {
                        assert(mid.notes[i] == o.notes[i] && mid.notes[j] == o.notes[j]);
                    } else {
                        assert(mid.notes[i] == o.notes[i]);
                        if mid.notes[i].id == id@ {
                            assert(has_note(o, id@));
                        }
                    }
                }
                assert forall|i: int|
                    0 <= i < mid.links.len() implies has_note(
                    mid,
                    (#[trigger] mid.links[i]).note_id,
                ) by {
                    assert(mid.links[i] == o.links[i]);
                    assert(has_note(o, o.links[i].note_id));
                    let w = choose|w: int|
                        0 <= w < o.notes.len() && (#[trigger] o.notes[w]).id
                            == o.links[i].note_id;
                    assert(mid.notes[w].id == o.links[i].note_id);
                }
                assert forall|i: int|
                    0 <= i < mid.links.len() implies has_tag_id(
                    mid,
                    (#[trigger] mid.links[i]).tag_id,
                ) by {
                    assert(mid.links[i] == o.links[i]);
                    lemma_same_tags(o, mid);
                }
                assert forall|i: int|
                    0 <= i < mid.notes.len() implies (#[trigger] mid.fts[i]).note_id
                    == mid.notes[i].id && mid.fts[i].content == mid.notes[i].content by {
                    if i < o.notes.len() {
                        assert(mid.notes[i] == o.notes[i] && mid.fts[i] == o.fts[i]);
                    }
                }
            }
            assert(has_note(mid, id@)) by {
                assert(mid.notes[o.notes.len() as int].id == id@);
            }
            assert forall|i: int|
                0 <= i < mid.links.len() implies (#[trigger] mid.links[i]).note_id != id@ by {
                assert(mid.links[i] == o.links[i]);
                assert(has_note(o, o.links[i].note_id));
                if o.links[i].note_id == id@ {
                    assert(has_note(o, id@));
                }
            }
            assert(fresh_of(mid.tags, views(norm@)) == fresh_of(o.tags, views(norm@)));
        }
        let owned_id = id.to_owned();
        let res = self.ensure_tag_links(&owned_id, &norm);
        proof {
            assert(res is Ok);
            assert(relinked(mid, self@, id@, views(norm@)));
            assert(insert_effect(o, self@, id@, content@, normalize_spec(views(tags@)), now));
        }
        res
    }

    /// Inserts a new note: generates a fresh id, stamps it with the current
    /// clock, writes content and index, and links the normalized tags.
    /// Returns the new note's id.
    pub fn insert_note(&mut self, content: &str, tags: &Vec<String>) -> (r: Result<
        String,
        StorageError,
    >)
        requires
            old(self)@.wf(),
        ensures
            final(self)@.wf(),
            match r {
                Ok(id) => id@.len() == 36 && exists|t: u64|
                    insert_effect(
                        old(self)@,
                        final(self)@,
                        id@,
                        content@,
                        normalize_spec(views(tags@)),
                        t,
                    ),
                Err(e) => final(self)@ =~= old(self)@ && (e == StorageError::ClockError || e
                    == StorageError::WriteFailed),
            },
    {
        let now = match now_unix_seconds() {
            Ok(t) => t,
            Err(e) => {
                return Err(e);
            },
        };
        let id = fresh_uuid();
        match self.insert_note_with(id.as_str(), now, content, tags) {
            Ok(()) => {
                proof {
                    assert(exists|t: u64|
                        insert_effect(
                            old(self)@,
                            self@,
                            id@,
                            content@,
                            normalize_spec(views(tags@)),
                            t,
                        )) by {
                        assert(insert_effect(
                            old(self)@,
                            self@,
                            id@,
                            content@,
                            normalize_spec(views(tags@)),
                            now,
                        ));
                    }
                }
                Ok(id)
            },
            Err(e) => Err(e),
        }
    }

    /// Replaces the whole tag set of `note_id` by the normalized form of
    /// `tags`, upserting tag names as needed. A no-op on an unknown id; the
    /// whole operation is atomic.
    pub fn replace_note_tags(&mut self, note_id: &str, tags: &Vec<String>) -> (r: Result<
        (),
        StorageError,
    >)
        requires
            old(self)@.wf(),
        ensures
            final(self)@.wf(),
            r is Ok <==> (!has_note(old(self)@, note_id@) || can_alloc(
                old(self)@.tags,
                normalize_spec(views(tags@)),
            )),
            match r {
                Ok(()) => if has_note(old(self)@, note_id@) {
                    relinked(old(self)@, final(self)@, note_id@, normalize_spec(views(tags@)))
                } else {
                    final(self)@ =~= old(self)@
                },
                Err(e) => e == StorageError::WriteFailed && final(self)@ =~= old(self)@,
            },
    {
        let ghost o = self@;
        let norm = normalize_tags(tags);
        proof {
            lemma_normalize_wf(views(tags@));
        }
        if self.note_pos(note_id).is_none() {
            return Ok(());
        }
        let fresh = self.fresh_tags(&norm);
        let maxid = self.max_tag_id();
        if fresh.len() > 0 {
            let flen: u64 = fresh.len() as u64;
            if maxid > u64::MAX - flen {
                return Err(StorageError::WriteFailed);
            }
        }
        assert(can_alloc(o.tags, views(norm@)));
        let owned_id = note_id.to_owned();
        // drop every existing link of the note
        let mut kept: Vec<LinkRow> = Vec::new();
        let mut i: usize = 0;
        proof {
            assert(links_without(o.links.take(0), note_id@) =~= Seq::<LinkV>::empty());
            assert(kept@.map_values(|l: LinkRow| l@) =~= Seq::<LinkV>::empty());
        }
        while i < self.links.len()
            invariant
                self@ == o,
                o.wf(),
                i <= self.links@.len(),
                self.links@.len() == o.links.len(),
                owned_id@ == note_id@,
                kept@.map_values(|l: LinkRow| l@) == links_without(
                    o.links.take(i as int),
                    note_id@,
                ),
            decreases self.links@.len() - i,
        {
            proof {
                assert(o.links.take(i + 1).drop_last() =~= o.links.take(i as int));
                assert(o.links.take(i + 1).last() == o.links[i as int]);
                assert(o.links[i as int] == self.links@[i as int]@);
            }
            if !self.links[i].note_id.eq(&owned_id) {
                let ghost k0 = kept@;
                kept.push(
                    LinkRow {
                        note_id: self.links[i].note_id.clone(),
                        tag_id: self.links[i].tag_id,
                    },
                );
                proof {
                    assert(kept@.map_values(|l: LinkRow| l@) =~= k0.map_values(
                        |l: LinkRow| l@,
                    ).push(o.links[i as int]));
                }
            }
            i = i + 1;
        }
        self.links = kept;
        let ghost mid = self@;
        proof {
            assert(o.links.take(o.links.len() as int) =~= o.links);
            assert(mid.links == links_without(o.links, note_id@));
            assert(mid.notes == o.notes && mid.tags == o.tags && mid.fts == o.fts);
            lemma_links_without(o.links, note_id@);
            assert(mid.wf()) by {
                assert forall|a: int, b: int|
                    0 <= a < b < mid.links.len() implies !((#[trigger] mid.links[a]).note_id == (
                #[trigger] mid.links[b]).note_id && mid.links[a].tag_id
                    == mid.links[b].tag_id) by {
                    lemma_links_without_distinct(o.links, note_id@);
                }
                assert forall|a: int|
                    0 <= a < mid.links.len() implies has_note(
                    mid,
                    (#[trigger] mid.links[a]).note_id,
                ) && has_tag_id(mid, mid.links[a].tag_id) by {
                    assert(mid.links.contains(mid.links[a]));
                    assert(o.links.contains(mid.links[a]));
                    let w = choose|w: int| 0 <= w < o.links.len() && o.links[w] == mid.links[a];
                    assert(has_note(o, o.links[w].note_id));
                    assert(has_tag_id(o, o.links[w].tag_id));
                    lemma_same_notes(o, mid);
                    lemma_same_tags(o, mid);
                }
            }
            assert(has_note(mid, note_id@)) by {
                lemma_same_notes(o, mid);
            }
            assert(fresh_of(mid.tags, views(norm@)) == fresh_of(o.tags, views(norm@)));
        }
        let res = self.ensure_tag_links(&owned_id, &norm);
        proof {
            assert(res is Ok);
            assert(relinked(mid, self@, note_id@, views(norm@)));
            assert(relinked(o, self@, note_id@, views(norm@))) by {
                lemma_links_without_absent(mid.links, note_id@);
                assert(links_without(mid.links, note_id@) =~= mid.links);
                assert forall|oid: Seq<char>, name: Seq<char>|
                    oid != note_id@ implies (#[trigger] note_has_tag(self@, oid, name)
                    <==> note_has_tag(o, oid, name)) by {
                    assert(note_has_tag(self@, oid, name) <==> note_has_tag(mid, oid, name));
                    assert(note_has_tag(mid, oid, name) <==> note_has_tag(o, oid, name)) by {
                        lemma_same_tags(o, mid);
                        if linked(mid, oid, tag_id_in(o.tags, name)) {
                            let w = choose|w: int|
                                0 <= w < mid.links.len() && (#[trigger] mid.links[w]).note_id
                                    == oid && mid.links[w].tag_id == tag_id_in(o.tags, name);
                            assert(mid.links.contains(mid.links[w]));
                            assert(o.links.contains(mid.links[w]));
                            let u = choose|u: int|
                                0 <= u < o.links.len() && o.links[u] == mid.links[w];
                            assert(linked(o, oid, tag_id_in(o.tags, name)));
                        }
                        if linked(o, oid, tag_id_in(o.tags, name)) {
                            let w = choose|w: int|
                                0 <= w < o.links.len() && (#[trigger] o.links[w]).note_id == oid
                                    && o.links[w].tag_id == tag_id_in(o.tags, name);
                            assert(o.links.contains(o.links[w]));
                            assert(links_without(o.links, note_id@).contains(o.links[w]));
                            let u = choose|u: int|
                                0 <= u < mid.links.len() && mid.links[u] == o.links[w];
                            assert(linked(mid, oid, tag_id_in(o.tags, name)));
                        }
                    }
                }
            }
        }
        res
    }

    /// Rewrites the content of `note_id` and bumps its update stamp to
    /// `now`, rewriting the full-text index row in lockstep. Affects nothing
    /// when the id is unknown or the note is soft-deleted.
    pub fn update_note_content_at(&mut self, note_id: &str, content: &str, now: u64) -> (r: Result<
        (),
        StorageError,
    >)
        requires
            old(self)@.wf(),
        ensures
            final(self)@.wf(),
            r is Ok,
            update_effect(old(self)@, final(self)@, note_id@, content@, now),
    {
        let ghost o = self@;
        match self.note_pos(note_id) {
            Some(i) => {
                if self.notes[i].deleted_at.is_none() {
                    let created = self.notes[i].created_at;
                    let bumped = if now >= created {
                        now
                    } else {
                        created
                    };
                    self.notes[i].content = content.to_owned();
                    self.notes[i].updated_at = bumped;
                    self.fts[i].content = content.to_owned();
                    proof {
                        let ni = note_at(o, note_id@);
                        assert(ni == i as int);
                        assert(o.fts[ni].note_id == o.notes[ni].id);
                        assert(o.fts[ni].content == o.notes[ni].content);
                        assert(self@.notes =~= o.notes.update(
                            ni,
                            NoteV {
                                id: o.notes[ni].id,
                                content: content@,
                                created_at: o.notes[ni].created_at,
                                updated_at: stamp(o.notes[ni].created_at, now),
                                deleted_at: o.notes[ni].deleted_at,
                                pinned: o.notes[ni].pinned,
                            },
                        ));
                        assert(self@.fts =~= o.fts.update(
                            ni,
                            FtsV { note_id: o.notes[ni].id, content: content@ },
                        ));
                        assert(self@.tags == o.tags);
                        assert(self@.links == o.links);
                        assert(self@.wf()) by {
                            assert forall|a: int, b: int|
                                0 <= a < b < self@.notes.len() implies (
                            #[trigger] self@.notes[a]).id != (#[trigger] self@.notes[b]).id by {
                                assert(self@.notes[a].id == o.notes[a].id);
                                assert(self@.notes[b].id == o.notes[b].id);
                            }
                            assert forall|a: int|
                                0 <= a < self@.links.len() implies has_note(
                                self@,
                                (#[trigger] self@.links[a]).note_id,
                            ) by {
                                assert(self@.links[a] == o.links[a]);
                                assert(has_note(o, o.links[a].note_id));
                                let w = choose|w: int|
                                    0 <= w < o.notes.len() && (#[trigger] o.notes[w]).id
                                        == o.links[a].note_id;
                                assert(self@.notes[w].id == o.links[a].note_id);
                            }
                            assert forall|a: int|
                                0 <= a < self@.links.len() implies has_tag_id(
                                self@,
                                (#[trigger] self@.links[a]).tag_id,
                            ) by {
                                assert(self@.links[a] == o.links[a]);
                                lemma_same_tags(o, self@);
                            }
                            assert forall|a: int|
                                0 <= a < self@.notes.len() implies (#[trigger] self@.fts[a]).note_id
                                == self@.notes[a].id && self@.fts[a].content
                                == self@.notes[a].content by {
                                if a != ni {
                                    assert(self@.fts[a] == o.fts[a]);
                                    assert(self@.notes[a] == o.notes[a]);
                                }
                            }
                            assert forall|a: int|
                                0 <= a < self@.notes.len() implies (#[trigger] self@.notes[a]).updated_at
                                >= self@.notes[a].created_at by {
                                if a != ni {
                                    assert(self@.notes[a] == o.notes[a]);
                                }
                            }
                        }
                        assert(update_effect(o, self@, note_id@, content@, now));
                    }
                    Ok(())
                } else {
                    proof {
                        assert(!has_live_note(o, note_id@));
                        assert(self@ =~= o);
                    }
                    Ok(())
                }
            },
            None => {
                proof {
                    assert(!has_live_note(o, note_id@));
                    assert(self@ =~= o);
                }
                Ok(())
            },
        }
    }

    /// Rewrites the content of `note_id` at the current clock reading.
    pub fn update_note_content(&mut self, note_id: &str, content: &str) -> (r: Result<
        (),
        StorageError,
    >)
        requires
            old(self)@.wf(),
        ensures
            final(self)@.wf(),
            match r {
                Ok(()) => exists|t: u64|
                    update_effect(old(self)@, final(self)@, note_id@, content@, t),
                Err(e) => e == StorageError::ClockError && final(self)@ =~= old(self)@,
            },
    {
        let now = match now_unix_seconds() {
            Ok(t) => t,
            Err(e) => {
                return Err(e);
            },
        };
        let r = self.update_note_content_at(note_id, content, now);
        proof {
            let t = now;
            assert(update_effect(old(self)@, self@, note_id@, content@, t));
        }
        r
    }

    /// Whether the association holds the pair (`note_id`, `tid`).
    fn has_link(&self, note_id: &String, tid: u64) -> (r: bool)
        ensures
            r == linked(self@, note_id@, tid),
    {
        let mut i: usize = 0;
        while i < self.links.len()
            invariant
                i <= self.links@.len(),
                self@.links.len() == self.links@.len(),
                forall|j: int|
                    0 <= j < i ==> !((#[trigger] self@.links[j]).note_id == note_id@
                        && self@.links[j].tag_id == tid),
            decreases self.links@.len() - i,
        {
            proof {
                assert(self@.links[i as int] == self.links@[i as int]@);
            }
            if self.links[i].note_id.eq(note_id) && self.links[i].tag_id == tid {
                return true;
            }
            i = i + 1;
        }
        false
    }

    /// Whether the whole state satisfies the engine's invariant.
    fn check_wf(&self) -> (r: bool)
        ensures
            r == self@.wf(),
    {
        let ghost v = self@;
        // notes: unique ids, stamps in order
        let mut i: usize = 0;
        while i < self.notes.len()
            invariant
                self@ == v,
                i <= self.notes@.len(),
                self@.notes.len() == self.notes@.len(),
                forall|a: int, b: int|
                    0 <= a < b < self@.notes.len() && a < i ==> (#[trigger] self@.notes[a]).id != (
                    #[trigger] self@.notes[b]).id,
                forall|a: int|
                    0 <= a < i ==> (#[trigger] self@.notes[a]).updated_at
                        >= self@.notes[a].created_at,
            decreases self.notes@.len() - i,
        {
            proof {
                assert(self@.notes[i as int] == self.notes@[i as int]@);
            }
            if self.notes[i].updated_at < self.notes[i].created_at {
                return false;
            }
            let mut j: usize = i + 1;
            while j < self.notes.len()
                invariant
                    self@ == v,
                    i < j <= self.notes@.len(),
                    i < self.notes@.len(),
                    self@.notes.len() == self.notes@.len(),
                    forall|b: int|
                        i < b < j ==> (#[trigger] self@.notes[b]).id != self@.notes[i as int].id,
                decreases self.notes@.len() - j,
            {
                proof {
                    assert(self@.notes[j as int] == self.notes@[j as int]@);
                }
                if self.notes[i].id.eq(&self.notes[j].id) {
                    return false;
                }
                j = j + 1;
            }
            i = i + 1;
        }
        // tags: unique ids and names, no empty name
        let mut i: usize = 0;
        while i < self.tags.len()
            invariant
                self@ == v,
                i <= self.tags@.len(),
                self@.tags.len() == self.tags@.len(),
                forall|a: int, b: int|
                    0 <= a < b < self@.tags.len() && a < i ==> (#[trigger] self@.tags[a]).id != (
                    #[trigger] self@.tags[b]).id && self@.tags[a].name != self@.tags[b].name,
                forall|a: int| 0 <= a < i ==> (#[trigger] self@.tags[a]).name.len() > 0,
            decreases self.tags@.len() - i,
        {
            proof {
                assert(self@.tags[i as int] == self.tags@[i as int]@);
            }
            if self.tags[i].name.as_str().is_empty() {
                return false;
            }
            proof {
                assert(self@.tags[i as int].name.len() > 0);
            }
            let mut j: usize = i + 1;
            while j < self.tags.len()
                invariant
                    self@ == v,
                    i < j <= self.tags@.len(),
                    i < self.tags@.len(),
                    self@.tags.len() == self.tags@.len(),
                    forall|b: int|
                        i < b < j ==> (#[trigger] self@.tags[b]).id != self@.tags[i as int].id
                            && self@.tags[b].name != self@.tags[i as int].name,
                decreases self.tags@.len() - j,
            {
                proof {
                    assert(self@.tags[j as int] == self.tags@[j as int]@);
                }
                if self.tags[i].id == self.tags[j].id || self.tags[i].name.eq(&self.tags[j].name) {
                    proof {
                        assert(self@.tags[i as int] == self.tags@[i as int]@);
                        assert(!self@.wf()) by {
                            if self@.wf() {
                                assert(self@.tags[i as int].id != self@.tags[j as int].id
                                    && self@.tags[i as int].name != self@.tags[j as int].name);
                            }
                        }
                    }
                    return false;
                }
                j = j + 1;
            }
            i = i + 1;
        }
        // links: unique pairs referring to existing rows
        let mut i: usize = 0;
        while i < self.links.len()
            invariant
                self@ == v,
                i <= self.links@.len(),
                self@.links.len() == self.links@.len(),
                forall|a: int, b: int|
                    0 <= a < b < self@.links.len() && a < i ==> !((#[trigger] self@.links[a]).note_id
                        == (#[trigger] self@.links[b]).note_id && self@.links[a].tag_id
                        == self@.links[b].tag_id),
                forall|a: int|
                    0 <= a < i ==> has_note(self@, (#[trigger] self@.links[a]).note_id)
                        && has_tag_id(self@, self@.links[a].tag_id),
            decreases self.links@.len() - i,
        {
            proof {
                assert(self@.links[i as int] == self.links@[i as int]@);
            }
            if !self.any_note_with_id(&self.links[i].note_id) {
                return false;
            }
            if !self.any_tag_with_id(self.links[i].tag_id) {
                return false;
            }
            let mut j: usize = i + 1;
            while j < self.links.len()
                invariant
                    self@ == v,
                    i < j <= self.links@.len(),
                    i < self.links@.len(),
                    self@.links.len() == self.links@.len(),
                    forall|b: int|
                        i < b < j ==> !((#[trigger] self@.links[b]).note_id
                            == self@.links[i as int].note_id && self@.links[b].tag_id
                            == self@.links[i as int].tag_id),
                decreases self.links@.len() - j,
            {
                proof {
                    assert(self@.links[j as int] == self.links@[j as int]@);
                }
                if self.links[i].note_id.eq(&self.links[j].note_id) && self.links[i].tag_id
                    == self.links[j].tag_id {
                    proof {
                        assert(self@.links[i as int] == self.links@[i as int]@);
                        assert(!self@.wf()) by {
                            if self@.wf() {
                                assert(!(self@.links[i as int].note_id
                                    == self@.links[j as int].note_id
                                    && self@.links[i as int].tag_id
                                    == self@.links[j as int].tag_id));
                            }
                        }
                    }
                    return false;
                }
                j = j + 1;
            }
            i = i + 1;
        }
        // index: one row per note, mirroring its content
        if self.fts.len() != self.notes.len() {
            return false;
        }
        let mut i: usize = 0;
        while i < self.notes.len()
            invariant
                self@ == v,
                i <= self.notes@.len(),
                self@.notes.len() == self.notes@.len(),
                self@.fts.len() == self@.notes.len(),
                forall|a: int|
                    0 <= a < i ==> (#[trigger] self@.fts[a]).note_id == self@.notes[a].id
                        && self@.fts[a].content == self@.notes[a].content,
            decreases self.notes@.len() - i,
        {
            proof {
                assert(self@.notes[i as int] == self.notes@[i as int]@);
                assert(self@.fts[i as int] == self.fts@[i as int]@);
            }
            if !self.fts[i].note_id.eq(&self.notes[i].id) {
                return false;
            }
            if !self.fts[i].content.eq(&self.notes[i].content) {
                return false;
            }
            i = i + 1;
        }
        true
    }

    /// Whether some note row carries `id`; no invariant assumed.
    fn any_note_with_id(&self, id: &String) -> (r: bool)
        ensures
            r == has_note(self@, id@),
    {
        let mut i: usize = 0;
        while i < self.notes.len()
            invariant
                i <= self.notes@.len(),
                self@.notes.len() == self.notes@.len(),
                forall|j: int| 0 <= j < i ==> (#[trigger] self@.notes[j]).id != id@,
            decreases self.notes@.len() - i,
        {
            proof {
                assert(self@.notes[i as int] == self.notes@[i as int]@);
            }
            if self.notes[i].id.eq(id) {
                return true;
            }
            i = i + 1;
        }
        false
    }

    /// Whether some tag row has id `tid`; no invariant assumed.
    fn any_tag_with_id(&self, tid: u64) -> (r: bool)
        ensures
            r == has_tag_id(self@, tid),
    {
        let mut i: usize = 0;
        while i < self.tags.len()
            invariant
                i <= self.tags@.len(),
                self@.tags.len() == self.tags@.len(),
                forall|j: int| 0 <= j < i ==> (#[trigger] self@.tags[j]).id != tid,
            decreases self.tags@.len() - i,
        {
            proof {
                assert(self@.tags[i as int] == self.tags@[i as int]@);
            }
            if self.tags[i].id == tid {
                return true;
            }
            i = i + 1;
        }
        false
    }

    /// Builds a store from already-persisted rows, accepting exactly the
    /// states that satisfy the engine's invariant.
    pub fn from_rows(
        notes: Vec<NoteRow>,
        tags: Vec<TagRow>,
        links: Vec<LinkRow>,
        fts: Vec<FtsRow>,
    ) -> (r: Option<Store>)
        ensures
            match r {
                Some(s) => {
                    &&& s@.wf()
                    &&& s@.notes == notes@.map_values(|x: NoteRow| x@)
                    &&& s@.tags == tags@.map_values(|x: TagRow| x@)
                    &&& s@.links == links@.map_values(|x: LinkRow| x@)
                    &&& s@.fts == fts@.map_values(|x: FtsRow| x@)
                },
                None => !(StoreView {
                    notes: notes@.map_values(|x: NoteRow| x@),
                    tags: tags@.map_values(|x: TagRow| x@),
                    links: links@.map_values(|x: LinkRow| x@),
                    fts: fts@.map_values(|x: FtsRow| x@),
                }).wf(),
            },
    {
        let s = Store { notes: notes, tags: tags, links: links, fts: fts };
        if s.check_wf() {
            Some(s)
        } else {
            None
        }
    }

    /// Whether the note carrying `note_id` is tagged `name`.
    fn note_carries(&self, note_id: &String, name: &String) -> (r: bool)
        requires
            self@.wf(),
        ensures
            r == note_has_tag(self@, note_id@, name@),
    {
        match self.tag_pos(name) {
            Some(p) => self.has_link(note_id, self.tags[p].id),
            None => false,
        }
    }

    /// Whether the note carrying `note_id` is tagged with every name of `tn`.
    fn carries_all(&self, note_id: &String, tn: &Vec<String>) -> (r: bool)
        requires
            self@.wf(),
        ensures
            r == forall|k: int|
                0 <= k < views(tn@).len() ==> note_has_tag(
                    self@,
                    note_id@,
                    #[trigger] views(tn@)[k],
                ),
    {
        let mut k: usize = 0;
        while k < tn.len()
            invariant
                self@.wf(),
                k <= tn@.len(),
                forall|j: int|
                    0 <= j < k ==> note_has_tag(self@, note_id@, #[trigger] views(tn@)[j]),
            decreases tn@.len() - k,
        {
            proof {
                assert(views(tn@)[k as int] == tn@[k as int]@);
            }
            if !self.note_carries(note_id, &tn[k]) {
                return false;
            }
            k = k + 1;
        }
        true
    }

    /// Searches the live notes: an empty trimmed query leaves the text filter
    /// off; a non-empty one keeps the notes whose content has, up to
    /// lowercasing, every token of the query (the index mirrors the content,
    /// so the match reads the content itself). A non-empty normalized tag
    /// list keeps only notes carrying every listed tag. Results come best
    /// rank first, then most recently updated, and at most `limit` of them;
    /// each carries the raw content as its preview.
    #[verifier::rlimit(100)]
    #[verifier::spinoff_prover]
    pub fn search_notes(&self, query: &str, tags: &Vec<String>, limit: i64) -> (r: Result<
        Vec<NoteListItem>,
        StorageError,
    >)
        requires
            self@.wf(),
        ensures
            match r {
                Ok(items) => {
                    let qt = trim_spec(query@);
                    let tn = normalize_spec(views(tags@));
                    let qlow = lowers(runs(qt));
                    let hasq = qt.len() > 0;
                    &&& limit <= 0 ==> items@.len() == 0
                    &&& limit > 0 ==> items@.len() == (if match_count(
                        self@,
                        qt,
                        tn,
                        qlow,
                        self@.notes.len() as int,
                    ) <= limit {
                        match_count(self@, qt, tn, qlow, self@.notes.len() as int)
                    } else {
                        limit as int
                    })
                    &&& forall|k: int|
                        0 <= k < items@.len() ==> {
                            let i = note_at(self@, (#[trigger] items@[k]).id@);
                            &&& has_note(self@, items@[k].id@)
                            &&& note_matches(self@, i, qt, tn)
                            &&& items@[k].preview@ == self@.notes[i].content
                        }
                    &&& forall|k1: int, k2: int|
                        0 <= k1 < k2 < items@.len() ==> (#[trigger] items@[k1]).id@ != (
                        #[trigger] items@[k2]).id@
                    &&& forall|k1: int, k2: int|
                        0 <= k1 < k2 < items@.len() ==> ranked_before(
                            self@,
                            qlow,
                            hasq,
                            note_at(self@, (#[trigger] items@[k1]).id@),
                            note_at(self@, (#[trigger] items@[k2]).id@),
                        )
                    &&& forall|j: int|
                        (0 <= j < self@.notes.len() && note_matches(self@, j, qt, tn) && !has_id(
                            items@,
                            (#[trigger] self@.notes[j]).id,
                        )) ==> ((items@.len() == limit && (forall|k: int|
                            0 <= k < items@.len() ==> ranked_before(
                                self@,
                                qlow,
                                hasq,
                                note_at(self@, (#[trigger] items@[k]).id@),
                                j,
                            ))) || limit <= 0)
                },
                Err(_) => false,
            },
    {
        let ghost v = self@;
        if limit <= 0 {
            let empty: Vec<NoteListItem> = Vec::new();
            return Ok(empty);
        }
        let qtrim = trim_blanks(query);
        let hasq = !qtrim.as_str().is_empty();
        let qtoks = split_tokens(qtrim.as_str());
        let qlow = lower_all(&qtoks);
        let ghost qt = trim_spec(query@);
        let ghost tn0 = normalize_spec(views(tags@));
        let ghost qlowv = lowers(runs(qt));
        proof {
            assert(views(qlow@) =~= qlowv);
        }
        let tn = normalize_tags(tags);
        // gather the matching notes in row order
        let mut cands: Vec<Cand> = Vec::new();
        let mut i: usize = 0;
        proof {
            assert(cands@ =~= cand_seq(v, qt, tn0, qlowv, 0));
        }
        while i < self.notes.len()
            invariant
                self@.wf(),
                self@ == v,
                i <= self.notes@.len(),
                self@.notes.len() == self.notes@.len(),
                views(qlow@) == qlowv,
                qlowv == lowers(runs(qt)),
                views(tn@) == tn0,
                hasq == (qt.len() > 0),
                cands@ == cand_seq(v, qt, tn0, qlowv, i as int),
                forall|k: int|
                    0 <= k < cands@.len() ==> (#[trigger] cands@[k]).rank as int == rank_of(
                        v.notes[cands@[k].idx as int].content,
                        qlowv,
                    ),
            decreases self.notes@.len() - i,
        {
            proof {
                assert(self@.notes[i as int] == self.notes@[i as int]@);
            }
            let is_live = self.notes[i].deleted_at.is_none();
            let tags_ok = if is_live {
                self.carries_all(&self.notes[i].id, &tn)
            } else {
                false
            };
            let mut rank: usize = 0;
            let mut text_ok = true;
            if is_live && tags_ok && hasq {
                let ctoks = split_tokens(self.notes[i].content.as_str());
                let clow = lower_all(&ctoks);
                proof {
                    assert(views(clow@) =~= lowers(runs(v.notes[i as int].content)));
                }
                text_ok = all_present(&qlow, &clow);
                rank = count_present(&clow, &qlow);
                proof {
                    assert(text_ok == all_in(qlowv, lowers(runs(v.notes[i as int].content))));
                    assert(text_ok == fts_match(v.notes[i as int].content, qt));
                    assert(rank as int == count_in(
                        lowers(runs(v.notes[i as int].content)),
                        qlowv,
                    ));
                    assert(rank as int == rank_of(v.notes[i as int].content, qlowv));
                }
            }
            let ghost c0 = cands@;
            if is_live && tags_ok && text_ok {
                proof {
                    assert(live(v.notes[i as int]));
                    assert(forall|k: int|
                        0 <= k < tn0.len() ==> note_has_tag(
                            v,
                            v.notes[i as int].id,
                            #[trigger] tn0[k],
                        ));
                    if hasq {
                        assert(qt.len() > 0);
                        assert(fts_match(v.notes[i as int].content, qt));
                        assert(rank as int == rank_of(v.notes[i as int].content, qlowv));
                    } else {
                        assert(!(qt.len() > 0));
                        assert(rank == 0);
                    }
                    assert(note_matches(v, i as int, qt, tn0));
                }
                if hasq {
                    cands.push(Cand { idx: i, rank: rank, updated: self.notes[i].updated_at });
                } else {
                    // without a query the rank plays no part; record it as zero
                    proof {
                        assert(runs(qt) =~= Seq::<Seq<char>>::empty());
                        assert(qlowv.len() == runs(qt).len());
                        assert(qlowv =~= Seq::<Seq<char>>::empty());
                        lemma_count_in_empty(lowers(runs(v.notes[i as int].content)));
                        assert(rank_of(v.notes[i as int].content, qlowv) == 0);
                    }
                    cands.push(Cand { idx: i, rank: 0, updated: self.notes[i].updated_at });
                }
                proof {
                    assert(cands@ =~= c0.push(
                        Cand {
                            idx: i,
                            rank: rank_of(v.notes[i as int].content, qlowv) as usize,
                            updated: v.notes[i as int].updated_at,
                        },
                    ));
                }
            } else {
                proof {
                    assert(!note_matches(v, i as int, qt, tn0));
                }
            }
            i = i + 1;
        }
        let ghost all_cands = cands@;
        proof {
            lemma_cand_seq(v, qt, tn0, qlowv, v.notes.len() as int);
        }
        let sorted = sort_cands(cands, hasq);
        let mut sorted = sorted;
        let ghost sv0 = sorted@;
        proof {
            broadcast use vstd::seq_lib::group_to_multiset_ensures;

            assert forall|a: int| 0 <= a < sv0.len() implies all_cands.contains(
                #[trigger] sv0[a],
            ) by {
                assert(sv0.contains(sv0[a]));
                assert(sv0.to_multiset().count(sv0[a]) > 0);
                assert(all_cands.to_multiset().count(sv0[a]) > 0);
            }
            assert forall|c: Cand| #[trigger]
                all_cands.contains(c) implies sv0.contains(c) by {
                assert(all_cands.to_multiset().count(c) > 0);
                assert(sv0.to_multiset().count(c) > 0);
            }
            assert(all_cands.no_duplicates()) by {
                assert forall|k1: int, k2: int|
                    0 <= k1 < k2 < all_cands.len() implies (#[trigger] all_cands[k1]) != (
                #[trigger] all_cands[k2]) by {
                    assert(all_cands[k1].idx < all_cands[k2].idx);
                }
            }
            all_cands.lemma_multiset_has_no_duplicates();
            sv0.lemma_multiset_has_no_duplicates_conv();
        }
        let lim: usize = if limit >= 0 && (limit as u64) < (sorted.len() as u64) {
            limit as usize
        } else {
            sorted.len()
        };
        sorted.truncate(lim);
        proof {
            if lim <= sv0.len() {
                assert(sorted@ =~= sv0.subrange(0, lim as int));
            } else {
                assert(sorted@ =~= sv0);
            }
        }
        // materialize the results
        let mut items: Vec<NoteListItem> = Vec::new();
        let mut k: usize = 0;
        while k < sorted.len()
            invariant
                self@.wf(),
                self@ == v,
                k <= sorted@.len(),
                self@.notes.len() == self.notes@.len(),
                items@.len() == k,
                forall|a: int|
                    0 <= a < sorted@.len() ==> 0 <= (#[trigger] sorted@[a]).idx
                        < self@.notes.len(),
                forall|a: int|
                    0 <= a < k ==> (#[trigger] items@[a]).id@ == v.notes[sorted@[a].idx as int].id
                        && items@[a].preview@ == v.notes[sorted@[a].idx as int].content,
            decreases sorted@.len() - k,
        {
            let idx = sorted[k].idx;
            proof {
                assert(self@.notes[idx as int] == self.notes@[idx as int]@);
            }
            items.push(
                NoteListItem {
                    id: self.notes[idx].id.clone(),
                    preview: self.notes[idx].content.clone(),
                },
            );
            k = k + 1;
        }
        proof {
            lemma_search_shape(v, qt, tn0, qlowv, hasq, all_cands, sv0, sorted@, items@, limit);
        }
        Ok(items)
    }

    /// Returns the tag names of `note_id`, alphabetically ascending; the
    /// empty sequence when the id is unknown, soft-deleted, or untagged.
    pub fn get_note_tags(&self, note_id: &str) -> (r: Result<Vec<String>, StorageError>)
        requires
            self@.wf(),
        ensures
            match r {
                Ok(names) => {
                    &&& forall|a: int, b: int|
                        0 <= a < b < names@.len() ==> lex_lt(
                            #[trigger] views(names@)[a],
                            #[trigger] views(names@)[b],
                        )
                    &&& forall|n: Seq<char>| #[trigger]
                        views(names@).contains(n) <==> (has_live_note(self@, note_id@)
                            && note_has_tag(self@, note_id@, n))
                },
                Err(_) => false,
            },
    {
        let live = match self.note_pos(note_id) {
            Some(i) => self.notes[i].deleted_at.is_none(),
            None => false,
        };
        if !live {
            let empty: Vec<String> = Vec::new();
            proof {
                assert(views(empty@) =~= Seq::<Seq<char>>::empty());
            }
            return Ok(empty);
        }
        let owned = note_id.to_owned();
        let mut collected: Vec<String> = Vec::new();
        let mut i: usize = 0;
        proof {
            assert(views(collected@) =~= linked_names(self@, note_id@, 0));
        }
        while i < self.tags.len()
            invariant
                self@.wf(),
                i <= self.tags@.len(),
                self@.tags.len() == self.tags@.len(),
                owned@ == note_id@,
                views(collected@) == linked_names(self@, note_id@, i as int),
            decreases self.tags@.len() - i,
        {
            proof {
                assert(self@.tags[i as int] == self.tags@[i as int]@);
            }
            if self.has_link(&owned, self.tags[i].id) {
                let ghost c0 = collected@;
                collected.push(self.tags[i].name.clone());
                proof {
                    assert(views(collected@) =~= views(c0).push(self@.tags[i as int].name));
                }
            }
            i = i + 1;
        }
        let ghost cv = views(collected@);
        proof {
            lemma_linked_names(self@, note_id@, self@.tags.len() as int);
        }
        let sorted = sort_strings(collected);
        proof {
            broadcast use vstd::seq_lib::group_to_multiset_ensures;

            let sv = views(sorted@);
            assert forall|n: Seq<char>| #[trigger] sv.contains(n) == cv.contains(n) by {
                assert(sv.contains(n) <==> sv.to_multiset().count(n) > 0);
                assert(cv.contains(n) <==> cv.to_multiset().count(n) > 0);
            }
            cv.lemma_multiset_has_no_duplicates();
            sv.lemma_multiset_has_no_duplicates_conv();
            assert forall|a: int, b: int| 0 <= a < b < sorted@.len() implies lex_lt(
                #[trigger] views(sorted@)[a],
                #[trigger] views(sorted@)[b],
            ) by {
                assert(lex_leq(sv[a], sv[b]));
                assert(sv[a] != sv[b]);
            }
            assert forall|n: Seq<char>| #[trigger]
                views(sorted@).contains(n) implies (has_live_note(self@, note_id@)
                && note_has_tag(self@, note_id@, n)) by {
                assert(cv.contains(n));
                let w = choose|w: int|
                    0 <= w < self@.tags.len() && (#[trigger] self@.tags[w]).name == n && linked(
                        self@,
                        note_id@,
                        self@.tags[w].id,
                    );
                assert(has_tag(self@, n));
                let u = tag_idx_in(self@.tags, n);
                assert(0 <= u < self@.tags.len() && self@.tags[u].name == n);
                if u != w {
                    assert(self@.tags[u].name != self@.tags[w].name);
                }
            }
            assert forall|n: Seq<char>|
                has_live_note(self@, note_id@) && note_has_tag(self@, note_id@, n)
                    implies #[trigger] views(sorted@).contains(n) by {
                let u = tag_idx_in(self@.tags, n);
                assert(0 <= u < self@.tags.len() && self@.tags[u].name == n);
                assert(linked(self@, note_id@, self@.tags[u].id));
                assert(cv.contains(n));
            }
        }
        Ok(sorted)
    }


    /// Returns up to `limit` stored tag names starting with the trimmed,
    /// lowercased prefix, alphabetically ascending; the empty sequence when
    /// the normalized prefix is empty or `limit` is not positive.
    pub fn list_tags_prefix(&self, prefix: &str, limit: i64) -> (r: Result<
        Vec<String>,
        StorageError,
    >)
        requires
            self@.wf(),
        ensures
            match r {
                Ok(names) => {
                    &&& prefix@.len() == 0 ==> names@.len() == 0
                    &&& norm_of(prefix@).len() == 0 ==> names@.len() == 0
                    &&& limit <= 0 ==> names@.len() == 0
                    &&& names@.len() <= limit || limit <= 0
                    &&& forall|a: int, b: int|
                        0 <= a < b < names@.len() ==> lex_lt(
                            #[trigger] views(names@)[a],
                            #[trigger] views(names@)[b],
                        )
                    &&& forall|n: Seq<char>| #[trigger]
                        views(names@).contains(n) ==> (norm_of(prefix@).len() > 0 && has_tag(
                            self@,
                            n,
                        ) && norm_of(prefix@).is_prefix_of(n))
                    &&& forall|n: Seq<char>|
                        (has_tag(self@, n) && norm_of(prefix@).len() > 0 && norm_of(
                            prefix@,
                        ).is_prefix_of(n) && !views(names@).contains(n)) ==> ((names@.len() == limit
                            && (forall|a: int|
                            0 <= a < names@.len() ==> lex_lt(#[trigger] views(names@)[a], n)))
                            || limit <= 0)
                },
                Err(_) => false,
            },
    {
        let t = trim_blanks(prefix);
        let np = lowercased(t.as_str());
        proof {
            if prefix@.len() == 0 {
                assert(trim_front(prefix@) == prefix@);
                assert(trim_spec(prefix@) == prefix@);
            }
        }
        if np.as_str().is_empty() || limit <= 0 {
            let empty: Vec<String> = Vec::new();
            proof {
                assert(views(empty@) =~= Seq::<Seq<char>>::empty());
            }
            return Ok(empty);
        }
        // collect every stored name that starts with the prefix
        let mut collected: Vec<String> = Vec::new();
        let mut i: usize = 0;
        proof {
            assert(views(collected@) =~= prefix_names(self@, np@, 0));
        }
        while i < self.tags.len()
            invariant
                self@.wf(),
                i <= self.tags@.len(),
                self@.tags.len() == self.tags@.len(),
                np@ == norm_of(prefix@),
                np@.len() > 0,
                views(collected@) == prefix_names(self@, np@, i as int),
            decreases self.tags@.len() - i,
        {
            proof {
                assert(self@.tags[i as int] == self.tags@[i as int]@);
            }
            if str_starts_with(self.tags[i].name.as_str(), np.as_str()) {
                let ghost c0 = collected@;
                collected.push(self.tags[i].name.clone());
                proof {
                    assert(views(collected@) =~= views(c0).push(self@.tags[i as int].name));
                }
            }
            i = i + 1;
        }
        proof {
            lemma_prefix_names(self@, np@, self@.tags.len() as int);
        }
        let ghost cv = views(collected@);
        let mut sorted = sort_strings(collected);
        let ghost sv0 = views(sorted@);
        proof {
            broadcast use vstd::seq_lib::group_to_multiset_ensures;

            assert forall|n: Seq<char>| #[trigger] sv0.contains(n) == cv.contains(n) by {
                assert(sv0.contains(n) <==> sv0.to_multiset().count(n) > 0);
                assert(cv.contains(n) <==> cv.to_multiset().count(n) > 0);
            }
            cv.lemma_multiset_has_no_duplicates();
            sv0.lemma_multiset_has_no_duplicates_conv();
        }
        let lim: usize = if limit >= 0 && (limit as u64) < (sorted.len() as u64) {
            limit as usize
        } else {
            sorted.len()
        };
        sorted.truncate(lim);
        proof {
            if lim <= sv0.len() {
                assert(views(sorted@) =~= sv0.subrange(0, lim as int));
            } else {
                assert(views(sorted@) =~= sv0);
            }
            assert(sorted@.len() <= limit);
            assert forall|a: int, b: int| 0 <= a < b < sorted@.len() implies lex_lt(
                #[trigger] views(sorted@)[a],
                #[trigger] views(sorted@)[b],
            ) by {
                assert(views(sorted@)[a] == sv0[a]);
                assert(views(sorted@)[b] == sv0[b]);
                assert(lex_leq(sv0[a], sv0[b]));
                assert(sv0[a] != sv0[b]);
            }
            assert forall|n: Seq<char>| #[trigger]
                views(sorted@).contains(n) implies (norm_of(prefix@).len() > 0 && has_tag(
                self@,
                n,
            ) && norm_of(prefix@).is_prefix_of(n)) by {
                let a = choose|a: int|
                    0 <= a < views(sorted@).len() && views(sorted@)[a] == n;
                assert(sv0[a] == n);
                assert(sv0.contains(n));
                assert(cv.contains(n));
                let m = choose|m: int| 0 <= m < cv.len() && cv[m] == n;
                let w = choose|w: int|
                    0 <= w < self@.tags.len() && (#[trigger] cv[m]) == self@.tags[w].name
                        && np@.is_prefix_of(self@.tags[w].name);
                assert(has_tag(self@, n)) by {
                    assert(self@.tags[w].name == n);
                }
            }
            assert forall|n: Seq<char>|
                (has_tag(self@, n) && norm_of(prefix@).len() > 0 && norm_of(
                    prefix@,
                ).is_prefix_of(n) && !views(sorted@).contains(n)) implies ((sorted@.len() == limit
                && (forall|a: int|
                0 <= a < sorted@.len() ==> lex_lt(#[trigger] views(sorted@)[a], n))) || limit
                <= 0) by {
                let w = tag_idx_in(self@.tags, n);
                assert(0 <= w < self@.tags.len() && self@.tags[w].name == n);
                assert(cv.contains(n));
                assert(sv0.contains(n));
                let u = choose|u: int| 0 <= u < sv0.len() && sv0[u] == n;
                if u < sorted@.len() {
                    assert(views(sorted@)[u] == sv0[u]);
                    assert(views(sorted@).contains(n));
                } else {
                    assert(sorted@.len() == lim);
                    assert(lim < sv0.len());
                    assert(lim as int == limit);
                    assert forall|a: int|
                        0 <= a < sorted@.len() implies lex_lt(
                        #[trigger] views(sorted@)[a],
                        n,
                    ) by {
                        assert(views(sorted@)[a] == sv0[a]);
                        assert(lex_leq(sv0[a], sv0[u]));
                        assert(sv0[a] != sv0[u]);
                    }
                }
            }
        }
        Ok(sorted)
    }

    /// Returns the live content stored for `note_id`, or nothing when the id
    /// is unknown or the note is soft-deleted. "Not found" is not an error.
    pub fn get_note_content(&self, note_id: &str) -> (r: Result<Option<String>, StorageError>)
        requires
            self@.wf(),
        ensures
            match r {
                Ok(Some(c)) => content_of(self@, note_id@) == Some(c@),
                Ok(None) => content_of(self@, note_id@) is None,
                Err(_) => false,
            },
    {
        match self.note_pos(note_id) {
            Some(i) => {
                if self.notes[i].deleted_at.is_none() {
                    Ok(Some(self.notes[i].content.clone()))
                } else {
                    Ok(None)
                }
            },
            None => Ok(None),
        }
    }
}

} // verus!
