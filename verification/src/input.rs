use vstd::prelude::*;

use crate::tags::norm_of;
use crate::tags::lowercased;
use crate::text::trim_blanks;
use crate::text::trim_spec;
use crate::text::views;

verus! {

/// Index of the first `sep` in `s`, or its length when there is none.
pub open spec fn sep_at(s: Seq<char>, sep: char) -> int
    decreases s.len(),
{
    if s.len() == 0 {
        0
    } else if s[0] == sep {
        0
    } else {
        1 + sep_at(s.drop_first(), sep)
    }
}

pub proof fn lemma_sep_at(s: Seq<char>, sep: char)
    ensures
        0 <= sep_at(s, sep) <= s.len(),
        forall|j: int| 0 <= j < sep_at(s, sep) ==> s[j] != sep,
        sep_at(s, sep) < s.len() ==> s[sep_at(s, sep)] == sep,
    decreases s.len(),
{
    if s.len() > 0 && s[0] != sep {
        lemma_sep_at(s.drop_first(), sep);
        assert forall|j: int| 0 <= j < sep_at(s, sep) implies s[j] != sep by {
            if j > 0 {
                assert(s[j] == s.drop_first()[j - 1]);
            }
        }
        if sep_at(s, sep) < s.len() {
            assert(s[sep_at(s, sep)] == s.drop_first()[sep_at(s, sep) - 1]);
        }
    }
}

/// If the first `k` characters are not `sep` and either the string ends or
/// `sep` follows, then `k` is where the first `sep` sits.
pub proof fn lemma_sep_at_exact(s: Seq<char>, sep: char, k: int)
    requires
        0 <= k <= s.len(),
        forall|j: int| 0 <= j < k ==> s[j] != sep,
        k < s.len() ==> s[k] == sep,
    ensures
        sep_at(s, sep) == k,
    decreases k,
{
    if k > 0 {
        lemma_sep_at_exact(s.drop_first(), sep, k - 1);
    }
}

/// The `sep`-separated fields of `s`, empty fields included; there is always
/// at least one.
pub open spec fn split_on(s: Seq<char>, sep: char) -> Seq<Seq<char>>
    decreases s.len(),
    via split_on_decreases
{
    let k = sep_at(s, sep);
    if k == s.len() {
        seq![s]
    } else {
        seq![s.take(k)] + split_on(s.skip(k + 1), sep)
    }
}

#[via_fn]
proof fn split_on_decreases(s: Seq<char>, sep: char) {
    lemma_sep_at(s, sep);
}

/// The comma-separated fields of a tag entry.
pub open spec fn fields(s: Seq<char>) -> Seq<Seq<char>> {
    split_on(s, ',')
}

pub proof fn lemma_split_on_len(s: Seq<char>, sep: char)
    ensures
        split_on(s, sep).len() >= 1,
{
    lemma_sep_at(s, sep);
}

/// Splits `s` at every `sep`, keeping empty fields.
pub fn split_on_char(s: &str, sep: char) -> (r: Vec<String>)
    ensures
        r@.len() >= 1,
        views(r@) =~= split_on(s@, sep),
{
    let n = s.unicode_len();
    let mut r: Vec<String> = Vec::new();
    let mut start: usize = 0;
    let mut j: usize = 0;
    proof {
        assert(s@.skip(0) =~= s@);
        assert(views(r@) =~= Seq::<Seq<char>>::empty());
        assert(Seq::<Seq<char>>::empty() + split_on(s@, sep) =~= split_on(s@, sep));
    }
    while j < n
        invariant
            n == s@.len(),
            0 <= start <= j <= n,
            forall|k: int| start <= k < j ==> s@[k] != sep,
            split_on(s@, sep) =~= views(r@) + split_on(s@.skip(start as int), sep),
        decreases n - j,
    {
        if s.get_char(j) == sep {
            let seg = s.substring_char(start, j).to_owned();
            proof {
                let rest = s@.skip(start as int);
                assert forall|k: int| 0 <= k < j - start implies rest[k] != sep by {
                    assert(rest[k] == s@[start + k]);
                }
                assert(rest[j - start] == s@[j as int]);
                lemma_sep_at_exact(rest, sep, j - start);
                assert(rest.take(j - start) =~= s@.subrange(start as int, j as int));
                assert(rest.skip(j - start + 1) =~= s@.skip(j + 1));
                assert(split_on(rest, sep) == seq![seg@] + split_on(s@.skip(j + 1), sep));
            }
            let ghost r0 = r@;
            r.push(seg);
            proof {
                assert(views(r@) =~= views(r0).push(s@.subrange(start as int, j as int)));
                assert(split_on(s@, sep) =~= views(r@) + split_on(s@.skip(j + 1), sep));
            }
            start = j + 1;
        }
        j = j + 1;
    }
    let last = s.substring_char(start, n).to_owned();
    proof {
        let rest = s@.skip(start as int);
        assert forall|k: int| 0 <= k < rest.len() implies rest[k] != sep by {
            assert(rest[k] == s@[start + k]);
        }
        lemma_sep_at_exact(rest, sep, rest.len() as int);
        assert(split_on(rest, sep) == seq![rest]);
        assert(rest =~= s@.subrange(start as int, n as int));
    }
    let ghost r0 = r@;
    r.push(last);
    proof {
        assert(views(r@) =~= views(r0).push(s@.subrange(start as int, n as int)));
        assert(views(r@) =~= views(r0) + seq![s@.subrange(start as int, n as int)]);
    }
    r
}

/// The tag list a comma-separated entry stands for: each field trimmed and
/// lowercased, empty results dropped; duplicates are kept, as the engine
/// normalizes again before persisting.
pub open spec fn parse_spec(segs: Seq<Seq<char>>) -> Seq<Seq<char>>
    decreases segs.len(),
{
    if segs.len() == 0 {
        Seq::empty()
    } else {
        let prev = parse_spec(segs.drop_last());
        let t = norm_of(segs.last());
        if t.len() == 0 {
            prev
        } else {
            prev.push(t)
        }
    }
}

/// Parses a comma-separated tag entry.
pub fn parse_tags(input: &str) -> (r: Vec<String>)
    ensures
        views(r@) == parse_spec(fields(input@)),
{
    let segs = split_on_char(input, ',');
    let ghost fv = fields(input@);
    let mut r: Vec<String> = Vec::new();
    let mut i: usize = 0;
    proof {
        assert(fv.take(0) =~= Seq::<Seq<char>>::empty());
        assert(views(r@) =~= Seq::<Seq<char>>::empty());
    }
    while i < segs.len()
        invariant
            i <= segs@.len(),
            views(segs@) == fv,
            views(r@) == parse_spec(fv.take(i as int)),
        decreases segs@.len() - i,
    {
        let t = trim_blanks(segs[i].as_str());
        let norm = lowercased(t.as_str());
        proof {
            assert(fv[i as int] == segs@[i as int]@);
            assert(norm@ == norm_of(fv[i as int]));
            assert(fv.take(i + 1).drop_last() =~= fv.take(i as int));
            assert(fv.take(i + 1).last() == fv[i as int]);
        }
        if !norm.as_str().is_empty() {
            let ghost r0 = r@;
            r.push(norm);
            proof {
                assert(views(r@) =~= views(r0).push(norm_of(fv[i as int])));
            }
        }
        i = i + 1;
    }
    proof {
        assert(fv.take(fv.len() as int) =~= fv);
    }
    r
}

/// The fragment being typed: the normal form of the text after the last
/// comma.
pub fn current_tag_fragment(input: &str) -> (r: String)
    ensures
        r@ == norm_of(fields(input@).last()),
{
    let segs = split_on_char(input, ',');
    let t = trim_blanks(segs[segs.len() - 1].as_str());
    proof {
        assert(views(segs@)[segs@.len() - 1] == segs@[segs@.len() - 1]@);
    }
    lowercased(t.as_str())
}

/// The non-empty entries of `parts`, in order.
pub open spec fn keep_nonempty(parts: Seq<Seq<char>>) -> Seq<Seq<char>>
    decreases parts.len(),
{
    if parts.len() == 0 {
        Seq::empty()
    } else {
        let prev = keep_nonempty(parts.drop_last());
        if parts.last().len() == 0 {
            prev
        } else {
            prev.push(parts.last())
        }
    }
}

/// `parts` joined with a comma and a space between entries.
pub open spec fn joined(parts: Seq<Seq<char>>) -> Seq<char>
    decreases parts.len(),
{
    if parts.len() == 0 {
        Seq::empty()
    } else if parts.len() == 1 {
        parts[0]
    } else {
        joined(parts.drop_last()) + ", "@ + parts.last()
    }
}

/// What the tag entry reads after accepting a completion: every field
/// trimmed, the fragment being typed replaced by the completion, empty
/// fields dropped, all joined by commas with a trailing separator ready for
/// the next tag.
pub open spec fn completed_spec(input: Seq<char>, completion: Seq<char>) -> Seq<char> {
    joined(
        keep_nonempty(
            fields(input).map_values(|f: Seq<char>| trim_spec(f)).drop_last().push(completion),
        ),
    ) + ", "@
}

/// Rewrites a comma-separated tag entry, replacing the fragment being typed
/// by the chosen completion.
pub fn apply_tag_completion(input: &str, completion: &str) -> (r: String)
    ensures
        r@ == completed_spec(input@, completion@),
{
    let segs = split_on_char(input, ',');
    let ghost trimmed_all = fields(input@).map_values(|f: Seq<char>| trim_spec(f));
    // trim every field, then swap the fragment for the completion
    let mut parts: Vec<String> = Vec::new();
    let mut i: usize = 0;
    proof {
        assert(views(parts@) =~= trimmed_all.take(0));
    }
    while i < segs.len()
        invariant
            i <= segs@.len(),
            views(segs@) == fields(input@),
            trimmed_all == fields(input@).map_values(|f: Seq<char>| trim_spec(f)),
            views(parts@) =~= trimmed_all.take(i as int),
        decreases segs@.len() - i,
    {
        let t = trim_blanks(segs[i].as_str());
        proof {
            assert(fields(input@)[i as int] == segs@[i as int]@);
        }
        let ghost p0 = parts@;
        parts.push(t);
        proof {
            assert(views(parts@) =~= views(p0).push(trim_spec(fields(input@)[i as int])));
            assert(trimmed_all.take(i + 1) =~= trimmed_all.take(i as int).push(
                trimmed_all[i as int],
            ));
        }
        i = i + 1;
    }
    proof {
        assert(trimmed_all.take(trimmed_all.len() as int) =~= trimmed_all);
        lemma_split_on_len(input@, ',');
    }
    let _ = parts.pop();
    parts.push(completion.to_owned());
    let ghost swapped = trimmed_all.drop_last().push(completion@);
    proof {
        assert(views(parts@) =~= swapped);
    }
    // keep the non-empty entries
    let mut kept: Vec<String> = Vec::new();
    let mut i: usize = 0;
    proof {
        assert(views(kept@) =~= keep_nonempty(swapped.take(0)));
    }
    while i < parts.len()
        invariant
            i <= parts@.len(),
            views(parts@) == swapped,
            views(kept@) == keep_nonempty(swapped.take(i as int)),
        decreases parts@.len() - i,
    {
        proof {
            assert(swapped[i as int] == parts@[i as int]@);
            assert(swapped.take(i + 1).drop_last() =~= swapped.take(i as int));
            assert(swapped.take(i + 1).last() == swapped[i as int]);
        }
        if !parts[i].as_str().is_empty() {
            let ghost k0 = kept@;
            let entry = parts[i].clone();
            kept.push(entry);
            proof {
                assert(views(kept@) =~= views(k0).push(swapped[i as int]));
            }
        }
        i = i + 1;
    }
    proof {
        assert(swapped.take(swapped.len() as int) =~= swapped);
    }
    let ghost keptv = keep_nonempty(swapped);
    // join with a comma and a space, then leave a trailing separator
    let mut out = String::new();
    let mut i: usize = 0;
    proof {
        assert(out@ =~= joined(keptv.take(0)));
    }
    while i < kept.len()
        invariant
            i <= kept@.len(),
            views(kept@) == keptv,
            out@ == joined(keptv.take(i as int)),
        decreases kept@.len() - i,
    {
        if i > 0 {
            out.append(", ");
        }
        out.append(kept[i].as_str());
        proof {
            assert(keptv[i as int] == kept@[i as int]@);
            assert(keptv.take(i + 1).drop_last() =~= keptv.take(i as int));
            assert(keptv.take(i + 1).last() == keptv[i as int]);
            if i == 0 {
                assert(out@ =~= joined(keptv.take(1)));
            } else {
                assert(out@ =~= joined(keptv.take(i as int)) + ", "@ + keptv[i as int]);
            }
        }
        i = i + 1;
    }
    proof {
        assert(keptv.take(keptv.len() as int) =~= keptv);
    }
    out.append(", ");
    out
}

/// The width of a derived note title, in characters.
pub open spec fn clipped(s: Seq<char>) -> Seq<char> {
    if s.len() <= 60 {
        s
    } else {
        s.take(60)
    }
}

/// The human-readable title of a note body: the first line that trims to
/// something, trimmed and clipped, or a placeholder when every line is
/// blank.
pub open spec fn title_of(ls: Seq<Seq<char>>) -> Seq<char>
    decreases ls.len(),
{
    if ls.len() == 0 {
        "(empty note)"@
    } else if trim_spec(ls[0]).len() > 0 {
        clipped(trim_spec(ls[0]))
    } else {
        title_of(ls.drop_first())
    }
}

/// Derives the short title shown for a note.
pub fn note_title(content: &str) -> (r: String)
    ensures
        r@ == title_of(split_on(content@, '\n')),
{
    let ls = split_on_char(content, '\n');
    let ghost lv = split_on(content@, '\n');
    let mut i: usize = 0;
    proof {
        assert(lv.skip(0) =~= lv);
    }
    while i < ls.len()
        invariant
            i <= ls@.len(),
            views(ls@) == lv,
            lv == split_on(content@, '\n'),
            title_of(lv) == title_of(lv.skip(i as int)),
        decreases ls@.len() - i,
    {
        proof {
            assert(lv[i as int] == ls@[i as int]@);
            assert(lv.skip(i as int)[0] == lv[i as int]);
        }
        let t = trim_blanks(ls[i].as_str());
        if !t.as_str().is_empty() {
            let n = t.as_str().unicode_len();
            let end = if n > 60 {
                60
            } else {
                n
            };
            let clip = t.as_str().substring_char(0, end).to_owned();
            proof {
                assert(t@ == trim_spec(lv[i as int]));
                assert(t@.len() > 0);
                assert(lv.skip(i as int).len() > 0);
                assert(trim_spec(lv.skip(i as int)[0]).len() > 0);
                assert(title_of(lv.skip(i as int)) == clipped(trim_spec(lv[i as int])));
                assert(clip@ =~= clipped(t@));
                assert(clip@ == title_of(lv));
            }
            return clip;
        }
        proof {
            assert(lv.skip(i as int).drop_first() =~= lv.skip(i + 1));
        }
        i = i + 1;
    }
    proof {
        assert(lv.skip(ls@.len() as int) =~= Seq::<Seq<char>>::empty());
    }
    String::from_str("(empty note)")
}

} // verus!