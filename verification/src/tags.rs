use vstd::prelude::*;

use crate::text::views;
use crate::text::{trim_blanks, trim_spec};

verus! {

/// What `str::to_lowercase` returns for a given character sequence: it
/// depends on the characters alone.
pub uninterp spec fn lower_of(s: Seq<char>) -> Seq<char>;

/// Relies on str::to_lowercase: the Unicode lowercase mapping of `s`, a
/// function of the characters of `s` alone; the empty string stays empty.
#[verifier::external_body]
pub(crate) fn lowercased(s: &str) -> (r: String)
    ensures
        r@ == lower_of(s@),
        s@.len() == 0 ==> r@.len() == 0,
{
    s.to_lowercase()
}

/// The normal form of one tag: trimmed, then lowercased.
pub open spec fn norm_of(s: Seq<char>) -> Seq<char> {
    lower_of(trim_spec(s))
}

/// The normalized form of a tag list: each entry trimmed and lowercased,
/// entries that normalize to nothing dropped, duplicates dropped keeping the
/// first occurrence.
pub open spec fn normalize_spec(tags: Seq<Seq<char>>) -> Seq<Seq<char>>
    decreases tags.len(),
{
    if tags.len() == 0 {
        Seq::empty()
    } else {
        let prev = normalize_spec(tags.drop_last());
        let t = norm_of(tags.last());
        if t.len() == 0 || prev.contains(t) {
            prev
        } else {
            prev.push(t)
        }
    }
}

/// The normalized list holds no duplicates and no empty names.
pub proof fn lemma_normalize_wf(tags: Seq<Seq<char>>)
    ensures
        forall|i: int, j: int|
            0 <= i < j < normalize_spec(tags).len() ==> (#[trigger] normalize_spec(tags)[i]) != (
            #[trigger] normalize_spec(tags)[j]),
        forall|i: int|
            0 <= i < normalize_spec(tags).len() ==> (#[trigger] normalize_spec(tags)[i]).len() > 0,
        forall|i: int|
            0 <= i < normalize_spec(tags).len() ==> exists|k: int|
                0 <= k < tags.len() && #[trigger] normalize_spec(tags)[i] == norm_of(tags[k]),
    decreases tags.len(),
{
    if tags.len() > 0 {
        lemma_normalize_wf(tags.drop_last());
        let prev = normalize_spec(tags.drop_last());
        let t = norm_of(tags.last());
        assert forall|i: int|
            0 <= i < normalize_spec(tags).len() implies exists|k: int|
            0 <= k < tags.len() && #[trigger] normalize_spec(tags)[i] == norm_of(tags[k]) by {
            if i < prev.len() {
                let k = choose|k: int|
                    0 <= k < tags.drop_last().len() && #[trigger] prev[i] == norm_of(
                        tags.drop_last()[k],
                    );
                assert(tags.drop_last()[k] == tags[k]);
                assert(normalize_spec(tags)[i] == norm_of(tags[k]));
            } else {
                assert(normalize_spec(tags)[i] == norm_of(tags[tags.len() - 1]));
            }
        }
        if !(t.len() == 0 || prev.contains(t)) {
            assert forall|i: int, j: int|
                0 <= i < j < normalize_spec(tags).len() implies (#[trigger] normalize_spec(
                tags,
            )[i]) != (#[trigger] normalize_spec(tags)[j]) by {
                if j == prev.len() {
                    assert(!prev.contains(t));
                    assert(prev[i] != t);
                }
            }
        }
    }
}

/// Membership in the normalized list is membership of a non-empty normal
/// form among the normal forms of the input.
pub proof fn lemma_normalize_membership(tags: Seq<Seq<char>>, name: Seq<char>)
    ensures
        normalize_spec(tags).contains(name) <==> (name.len() > 0 && exists|k: int|
            0 <= k < tags.len() && norm_of(#[trigger] tags[k]) == name),
    decreases tags.len(),
{
    if tags.len() > 0 {
        lemma_normalize_membership(tags.drop_last(), name);
        let prev = normalize_spec(tags.drop_last());
        let t = norm_of(tags.last());
        assert forall|k: int|
            0 <= k < tags.drop_last().len() implies tags.drop_last()[k] == tags[k] by {}
        if normalize_spec(tags).contains(name) {
            let i = choose|i: int|
                0 <= i < normalize_spec(tags).len() && normalize_spec(tags)[i] == name;
            if i < prev.len() {
                assert(prev.contains(name));
                lemma_normalize_wf(tags);
            } else {
                assert(name == t);
                assert(norm_of(tags[tags.len() - 1]) == name);
            }
            lemma_normalize_wf(tags.drop_last());
            assert(name.len() > 0) by {
                if i < prev.len() {
                    assert(prev[i].len() > 0);
                } else {
                    assert(normalize_spec(tags)[i] == t);
                    assert(t.len() > 0);
                }
            }
        }
        if name.len() > 0 && exists|k: int| 0 <= k < tags.len() && norm_of(#[trigger] tags[k])
            == name {
            let k = choose|k: int| 0 <= k < tags.len() && norm_of(#[trigger] tags[k]) == name;
            if k < tags.len() - 1 {
                assert(norm_of(tags.drop_last()[k]) == name);
                assert(prev.contains(name));
                if t.len() == 0 || prev.contains(t) {
                    assert(normalize_spec(tags) == prev);
                } else {
                    let i = choose|i: int| 0 <= i < prev.len() && prev[i] == name;
                    assert(normalize_spec(tags)[i] == name);
                }
            } else {
                assert(norm_of(tags.last()) == name);
                if prev.contains(t) {
                    let i = choose|i: int| 0 <= i < prev.len() && prev[i] == name;
                    assert(normalize_spec(tags)[i] == name);
                } else {
                    assert(normalize_spec(tags)[normalize_spec(tags).len() - 1] == name);
                }
            }
        }
    }
}

/// Whether `v` holds a string whose view is `s@`.
pub(crate) fn contains_string(v: &Vec<String>, s: &String) -> (r: bool)
    ensures
        r == views(v@).contains(s@),
{
    let mut i: usize = 0;
    while i < v.len()
        invariant
            i <= v.len(),
            forall|j: int| 0 <= j < i ==> views(v@)[j] != s@,
        decreases v.len() - i,
    {
        if v[i].eq(s) {
            proof {
                assert(views(v@)[i as int] == s@);
            }
            return true;
        }
        proof {
            assert(views(v@)[i as int] == v@[i as int]@);
        }
        i = i + 1;
    }
    false
}

/// Normalizes a tag list: trims and lowercases each tag, drops entries that
/// normalize to nothing, and drops duplicates keeping the first occurrence.
pub fn normalize_tags(tags: &Vec<String>) -> (r: Vec<String>)
    ensures
        views(r@) == normalize_spec(views(tags@)),
{
    let mut r: Vec<String> = Vec::new();
    let mut i: usize = 0;
    proof {
        assert(views(tags@).take(0) =~= Seq::<Seq<char>>::empty());
        assert(views(r@) =~= Seq::<Seq<char>>::empty());
    }
    while i < tags.len()
        invariant
            i <= tags.len(),
            views(r@) == normalize_spec(views(tags@).take(i as int)),
        decreases tags.len() - i,
    {
        let t = trim_blanks(tags[i].as_str());
        let n = lowercased(t.as_str());
        proof {
            assert(views(tags@)[i as int] == tags@[i as int]@);
            assert(n@ == norm_of(views(tags@)[i as int]));
            assert(views(tags@).take(i + 1).drop_last() =~= views(tags@).take(i as int));
            assert(views(tags@).take(i + 1).last() == views(tags@)[i as int]);
        }
        if !n.as_str().is_empty() {
            if !contains_string(&r, &n) {
                let ghost r0 = r@;
                r.push(n);
                proof {
                    assert(views(r@) =~= views(r0).push(normalize_spec(
                        views(tags@).take(i + 1),
                    ).last()));
                    assert(views(r@) =~= normalize_spec(views(tags@).take(i + 1)));
                }
            }
        }
        i = i + 1;
    }
    proof {
        assert(views(tags@).take(tags@.len() as int) =~= views(tags@));
    }
    r
}

} // verus!
