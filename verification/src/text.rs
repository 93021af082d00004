use vstd::prelude::*;

verus! {

/// The whitespace set used by the engine's tokenizer and trimmer:
/// ASCII space, tab, line feed and carriage return.
pub open spec fn is_blank(c: char) -> bool {
    c == ' ' || c == '\t' || c == '\n' || c == '\r'
}

/// Executable test for `is_blank`.
pub fn blank_char(c: char) -> (r: bool)
    ensures
        r == is_blank(c),
{
    c == ' ' || c == '\t' || c == '\n' || c == '\r'
}

/// `s` with leading blanks removed.
pub open spec fn trim_front(s: Seq<char>) -> Seq<char>
    decreases s.len(),
{
    if s.len() > 0 && is_blank(s[0]) {
        trim_front(s.drop_first())
    } else {
        s
    }
}

/// `s` with trailing blanks removed.
pub open spec fn trim_back(s: Seq<char>) -> Seq<char>
    decreases s.len(),
{
    if s.len() > 0 && is_blank(s[s.len() - 1]) {
        trim_back(s.drop_last())
    } else {
        s
    }
}

/// `s` with leading and trailing blanks removed.
pub open spec fn trim_spec(s: Seq<char>) -> Seq<char> {
    trim_back(trim_front(s))
}

proof fn lemma_trim_front_skip(s: Seq<char>, i: int)
    requires
        0 <= i <= s.len(),
        forall|j: int| 0 <= j < i ==> is_blank(s[j]),
    ensures
        trim_front(s) == trim_front(s.skip(i)),
    decreases i,
{
    if i > 0 {
        assert(s.skip(0) =~= s);
        assert(trim_front(s) == trim_front(s.drop_first()));
        assert(s.drop_first() =~= s.skip(1));
        lemma_trim_front_skip(s.skip(1), i - 1);
        assert(s.skip(1).skip(i - 1) =~= s.skip(i));
    } else {
        assert(s.skip(0) =~= s);
    }
}

proof fn lemma_trim_back_take(s: Seq<char>, i: int)
    requires
        0 <= i <= s.len(),
        forall|j: int| i <= j < s.len() ==> is_blank(s[j]),
    ensures
        trim_back(s) == trim_back(s.take(i)),
    decreases s.len() - i,
{
    if i < s.len() {
        assert(s.take(s.len() as int) =~= s);
        assert(trim_back(s) == trim_back(s.drop_last()));
        assert(s.drop_last() =~= s.take(s.len() - 1));
        lemma_trim_back_take(s.take(s.len() - 1), i);
        assert(s.take(s.len() - 1).take(i) =~= s.take(i));
    } else {
        assert(s.take(s.len() as int) =~= s);
    }
}

/// Trims the engine's blank characters from both ends of `s`.
pub fn trim_blanks(s: &str) -> (r: String)
    ensures
        r@ == trim_spec(s@),
{
    let n = s.unicode_len();
    let mut lo: usize = 0;
    while lo < n && blank_char(s.get_char(lo))
        invariant
            n == s@.len(),
            0 <= lo <= n,
            forall|j: int| 0 <= j < lo ==> is_blank(s@[j]),
        decreases n - lo,
    {
        lo = lo + 1;
    }
    let mut hi: usize = n;
    while hi > lo && blank_char(s.get_char(hi - 1))
        invariant
            n == s@.len(),
            0 <= lo <= hi <= n,
            forall|j: int| 0 <= j < lo ==> is_blank(s@[j]),
            forall|j: int| hi <= j < n ==> is_blank(s@[j]),
        decreases hi,
    {
        hi = hi - 1;
    }
    let out = s.substring_char(lo, hi);
    proof {
        lemma_trim_front_skip(s@, lo as int);
        let t = s@.skip(lo as int);
        if lo < hi {
            // the first remaining character is not blank, so trim_front stops here
            assert(!is_blank(t[0]));
            assert(trim_front(t) == t);
            lemma_trim_back_take(t, hi - lo);
            assert(t.take(hi - lo) =~= s@.subrange(lo as int, hi as int));
            if hi - lo > 0 {
                assert(!is_blank(t.take(hi - lo)[hi - lo - 1]));
            }
            assert(trim_back(t.take(hi - lo)) == t.take(hi - lo));
        } else {
            assert(t.len() == s@.len() - lo);
            assert(forall|j: int| 0 <= j < t.len() ==> is_blank(t[j]));
            lemma_trim_front_all_blank(t);
            assert(s@.subrange(lo as int, hi as int) =~= Seq::<char>::empty());
        }
    }
    out.to_owned()
}

proof fn lemma_trim_front_all_blank(s: Seq<char>)
    requires
        forall|j: int| 0 <= j < s.len() ==> is_blank(s[j]),
    ensures
        trim_front(s) =~= Seq::<char>::empty(),
        trim_back(Seq::<char>::empty()) =~= Seq::<char>::empty(),
    decreases s.len(),
{
    if s.len() > 0 {
        lemma_trim_front_all_blank(s.drop_first());
    }
}

/// Length of the leading run of non-blank characters of `s`.
pub open spec fn run_len(s: Seq<char>) -> int
    decreases s.len(),
{
    if s.len() == 0 || is_blank(s[0]) {
        0
    } else {
        1 + run_len(s.drop_first())
    }
}

/// The tokens of `s`: its maximal runs of non-blank characters, in order.
pub open spec fn runs(s: Seq<char>) -> Seq<Seq<char>>
    decreases s.len(),
    via runs_decreases
{
    if s.len() == 0 {
        Seq::empty()
    } else if is_blank(s[0]) {
        runs(s.drop_first())
    } else {
        seq![s.take(run_len(s))] + runs(s.skip(run_len(s)))
    }
}

#[via_fn]
proof fn runs_decreases(s: Seq<char>) {
    lemma_run_len_bounds(s);
}

pub proof fn lemma_run_len_bounds(s: Seq<char>)
    ensures
        0 <= run_len(s) <= s.len(),
        forall|j: int| 0 <= j < run_len(s) ==> !is_blank(s[j]),
        run_len(s) < s.len() ==> is_blank(s[run_len(s)]),
    decreases s.len(),
{
    if s.len() > 0 && !is_blank(s[0]) {
        lemma_run_len_bounds(s.drop_first());
        assert forall|j: int| 0 <= j < run_len(s) implies !is_blank(s[j]) by {
            if j > 0 {
                assert(s[j] == s.drop_first()[j - 1]);
            }
        }
        if run_len(s) < s.len() {
            assert(s[run_len(s)] == s.drop_first()[run_len(s) - 1]);
        }
    }
}

/// If the first `k` characters are non-blank and either the string ends or a
/// blank follows, then `k` is exactly the leading run length.
pub proof fn lemma_run_len_exact(s: Seq<char>, k: int)
    requires
        0 <= k <= s.len(),
        forall|j: int| 0 <= j < k ==> !is_blank(s[j]),
        k < s.len() ==> is_blank(s[k]),
    ensures
        run_len(s) == k,
    decreases k,
{
    if k > 0 {
        lemma_run_len_exact(s.drop_first(), k - 1);
    }
}

/// Tokens contain no blank characters and are never empty.
pub proof fn lemma_runs_wf(s: Seq<char>)
    ensures
        forall|k: int| 0 <= k < runs(s).len() ==> (#[trigger] runs(s)[k]).len() > 0,
        forall|k: int, j: int|
            0 <= k < runs(s).len() && 0 <= j < runs(s)[k].len() ==> !is_blank(
                #[trigger] runs(s)[k][j],
            ),
    decreases s.len(),
{
    if s.len() == 0 {
    } else if is_blank(s[0]) {
        lemma_runs_wf(s.drop_first());
        assert(runs(s) == runs(s.drop_first()));
    } else {
        lemma_run_len_bounds(s);
        lemma_run_len_bounds(s.drop_first());
        assert(run_len(s) == 1 + run_len(s.drop_first()));
        assert(run_len(s) >= 1);
        lemma_runs_wf(s.skip(run_len(s)));
        assert(runs(s) == seq![s.take(run_len(s))] + runs(s.skip(run_len(s))));
        assert(runs(s)[0] == s.take(run_len(s)));
        assert(runs(s)[0].len() == run_len(s));
        assert forall|k: int| 0 <= k < runs(s).len() implies (#[trigger] runs(s)[k]).len()
            > 0 by {
            if k > 0 {
                assert(runs(s)[k] == runs(s.skip(run_len(s)))[k - 1]);
            }
        }
        assert forall|k: int, j: int|
            0 <= k < runs(s).len() && 0 <= j < runs(s)[k].len() implies !is_blank(
            #[trigger] runs(s)[k][j],
        ) by {
            if k > 0 {
                assert(runs(s)[k] == runs(s.skip(run_len(s)))[k - 1]);
                assert(runs(s)[k][j] == runs(s.skip(run_len(s)))[k - 1][j]);
            } else {
                assert(runs(s)[0] == s.take(run_len(s)));
                assert(runs(s)[0][j] == s[j]);
            }
        }
    }
}

/// A string that is itself one token (non-empty, no blanks) has exactly
/// itself as its token list, and trimming leaves it unchanged.
pub proof fn lemma_single_token(t: Seq<char>)
    requires
        t.len() > 0,
        forall|j: int| 0 <= j < t.len() ==> !is_blank(t[j]),
    ensures
        runs(t) =~= seq![t],
        trim_spec(t) == t,
{
    lemma_run_len_exact(t, t.len() as int);
    assert(t.take(t.len() as int) =~= t);
    assert(t.skip(t.len() as int) =~= Seq::<char>::empty());
    assert(runs(Seq::<char>::empty()) =~= Seq::<Seq<char>>::empty());
    assert(runs(t) == seq![t.take(t.len() as int)] + runs(t.skip(t.len() as int)));
    assert(seq![t] + Seq::<Seq<char>>::empty() =~= seq![t]);
    assert(trim_front(t) == t);
    assert(trim_back(t) == t);
}

/// Splits `s` into its tokens.
pub fn split_tokens(s: &str) -> (r: Vec<String>)
    ensures
        r@.map_values(|t: String| t@) =~= runs(s@),
{
    let n = s.unicode_len();
    let mut r: Vec<String> = Vec::new();
    let mut i: usize = 0;
    proof {
        assert(s@.skip(0) =~= s@);
        assert(r@.map_values(|t: String| t@) =~= Seq::<Seq<char>>::empty());
        assert(Seq::<Seq<char>>::empty() + runs(s@) =~= runs(s@));
    }
    while i < n
        invariant
            n == s@.len(),
            0 <= i <= n,
            runs(s@) =~= r@.map_values(|t: String| t@) + runs(s@.skip(i as int)),
        decreases n - i,
    {
        if blank_char(s.get_char(i)) {
            proof {
                assert(s@.skip(i as int).drop_first() =~= s@.skip(i + 1));
            }
            i = i + 1;
        } else {
            let start = i;
            let mut j = i + 1;
            while j < n && !blank_char(s.get_char(j))
                invariant
                    n == s@.len(),
                    0 <= start < j <= n,
                    forall|k: int| start <= k < j ==> !is_blank(s@[k]),
                decreases n - j,
            {
                j = j + 1;
            }
            let tok = s.substring_char(start, j).to_owned();
            proof {
                let rest = s@.skip(start as int);
                assert forall|k: int| 0 <= k < j - start implies !is_blank(rest[k]) by {
                    assert(rest[k] == s@[start + k]);
                }
                if j - start < rest.len() {
                    assert(rest[j - start] == s@[j as int]);
                }
                lemma_run_len_exact(rest, j - start);
                assert(rest.take(j - start) =~= s@.subrange(start as int, j as int));
                assert(rest.skip(j - start) =~= s@.skip(j as int));
                assert(runs(rest) == seq![tok@] + runs(s@.skip(j as int)));
            }
            let ghost r0 = r@;
            r.push(tok);
            proof {
                assert(r@ =~= r0 + seq![tok]);
                assert(r@.map_values(|t: String| t@) =~= r0.map_values(|t: String| t@) + seq![
                    tok@,
                ]);
                assert(r0.map_values(|t: String| t@) + (seq![tok@] + runs(s@.skip(j as int)))
                    =~= r@.map_values(|t: String| t@) + runs(s@.skip(j as int)));
            }
            i = j;
        }
    }
    proof {
        assert(s@.skip(n as int) =~= Seq::<char>::empty());
    }
    r
}

/// The views of a sequence of strings.
pub open spec fn views(v: Seq<String>) -> Seq<Seq<char>> {
    v.map_values(|t: String| t@)
}

/// Strict lexicographic order on character sequences, by code point.
pub open spec fn lex_lt(a: Seq<char>, b: Seq<char>) -> bool
    decreases a.len(),
{
    if b.len() == 0 {
        false
    } else if a.len() == 0 {
        true
    } else if a[0] != b[0] {
        (a[0] as int) < (b[0] as int)
    } else {
        lex_lt(a.drop_first(), b.drop_first())
    }
}

pub proof fn lemma_lex_lt_total(a: Seq<char>, b: Seq<char>)
    ensures
        lex_lt(a, b) || lex_lt(b, a) || a =~= b,
        !(lex_lt(a, b) && lex_lt(b, a)),
    decreases a.len(),
{
    if a.len() > 0 && b.len() > 0 && a[0] == b[0] {
        lemma_lex_lt_total(a.drop_first(), b.drop_first());
        if a.drop_first() =~= b.drop_first() {
            assert forall|i: int| 0 <= i < a.len() implies a[i] == b[i] by {
                if i > 0 {
                    assert(a[i] == a.drop_first()[i - 1]);
                    assert(b[i] == b.drop_first()[i - 1]);
                }
            }
            assert(a =~= b);
        }
    }
}

pub proof fn lemma_lex_lt_trans(a: Seq<char>, b: Seq<char>, c: Seq<char>)
    requires
        lex_lt(a, b),
        lex_lt(b, c),
    ensures
        lex_lt(a, c),
    decreases a.len(),
{
    if a.len() > 0 && b.len() > 0 && c.len() > 0 {
        if a[0] == b[0] && b[0] == c[0] {
            lemma_lex_lt_trans(a.drop_first(), b.drop_first(), c.drop_first());
        }
    }
}

/// Decides `lex_lt` on two strings.
pub fn str_lt(a: &str, b: &str) -> (r: bool)
    ensures
        r == lex_lt(a@, b@),
{
    let na = a.unicode_len();
    let nb = b.unicode_len();
    let mut i: usize = 0;
    proof {
        assert(a@.skip(0) =~= a@);
        assert(b@.skip(0) =~= b@);
        assert(a@.take(0) =~= b@.take(0));
    }
    loop
        invariant
            na == a@.len(),
            nb == b@.len(),
            0 <= i <= na,
            0 <= i <= nb,
            a@.take(i as int) =~= b@.take(i as int),
            lex_lt(a@, b@) == lex_lt(a@.skip(i as int), b@.skip(i as int)),
        decreases na - i,
    {
        if i >= nb {
            // b is exhausted: a is not smaller
            return false;
        }
        if i >= na {
            // a is exhausted but b goes on
            return true;
        }
        let ca = a.get_char(i);
        let cb = b.get_char(i);
        if ca != cb {
            return ca < cb;
        }
        proof {
            assert(a@.skip(i as int).drop_first() =~= a@.skip(i + 1));
            assert(b@.skip(i as int).drop_first() =~= b@.skip(i + 1));
            assert(a@.take(i + 1) =~= a@.take(i as int).push(ca));
            assert(b@.take(i + 1) =~= b@.take(i as int).push(cb));
        }
        i = i + 1;
    }
}

/// Non-strict lexicographic order.
pub open spec fn lex_leq(a: Seq<char>, b: Seq<char>) -> bool {
    lex_lt(a, b) || a == b
}

/// Sorts strings ascending by code point, keeping the multiset of values.
pub fn sort_strings(v: Vec<String>) -> (r: Vec<String>)
    ensures
        views(r@).to_multiset() == views(v@).to_multiset(),
        forall|a: int, b: int|
            0 <= a < b < r@.len() ==> lex_leq(#[trigger] views(r@)[a], #[trigger] views(r@)[b]),
{
    broadcast use vstd::seq_lib::group_to_multiset_ensures;
    broadcast use vstd::multiset::group_multiset_axioms;

    let mut src = v;
    let mut out: Vec<String> = Vec::new();
    proof {
        assert(views(out@) =~= Seq::<Seq<char>>::empty());
        assert(views(out@).to_multiset().add(views(src@).to_multiset()) =~= views(
            v@,
        ).to_multiset());
    }
    while src.len() > 0
        invariant
            views(out@).to_multiset().add(views(src@).to_multiset()) == views(v@).to_multiset(),
            forall|a: int, b: int|
                0 <= a < b < out@.len() ==> lex_leq(
                    #[trigger] views(out@)[a],
                    #[trigger] views(out@)[b],
                ),
            forall|a: int, b: int|
                0 <= a < out@.len() && 0 <= b < src@.len() ==> lex_leq(
                    #[trigger] views(out@)[a],
                    #[trigger] views(src@)[b],
                ),
        decreases src.len(),
    {
        let mut m: usize = 0;
        let mut j: usize = 1;
        while j < src.len()
            invariant
                0 <= m < j <= src@.len(),
                src@.len() > 0,
                forall|k: int| 0 <= k < j ==> lex_leq(views(src@)[m as int], #[trigger] views(src@)[k]),
            decreases src.len() - j,
        {
            proof {
                lemma_lex_lt_total(src@[j as int]@, src@[m as int]@);
                assert(views(src@)[j as int] == src@[j as int]@);
                assert(views(src@)[m as int] == src@[m as int]@);
            }
            if str_lt(src[j].as_str(), src[m].as_str()) {
                let ghost m0 = m as int;
                m = j;
                proof {
                    assert forall|k: int| 0 <= k < j + 1 implies lex_leq(
                        views(src@)[m as int],
                        #[trigger] views(src@)[k],
                    ) by {
                        if k < j {
                            if views(src@)[m0] == views(src@)[k] {
                            } else {
                                lemma_lex_lt_trans(views(src@)[m as int], views(src@)[m0], views(src@)[k]);
                            }
                        }
                    }
                }
            }
            j = j + 1;
        }
        let ghost spre = src@;
        let x = src.remove(m);
        proof {
            assert(x@ == views(spre)[m as int]);
            assert(views(src@) =~= views(spre).remove(m as int));
            vstd::seq_lib::to_multiset_remove(views(spre), m as int);
            assert(views(src@).to_multiset() == views(spre).remove(m as int).to_multiset());
            vstd::seq_lib::to_multiset_contains(views(spre), x@);
            assert(views(spre).to_multiset().count(x@) > 0) by {
                assert(views(spre)[m as int] == x@);
                assert(views(spre).contains(x@));
            }
        }
        let ghost opre = out@;
        out.push(x);
        proof {
            assert(views(out@) =~= views(opre).push(x@));
            vstd::seq_lib::to_multiset_build(views(opre), x@);
            assert(views(out@).to_multiset() =~= views(opre).to_multiset().insert(x@));
            assert(views(out@).to_multiset().add(views(src@).to_multiset()) =~= views(
                opre,
            ).to_multiset().add(views(spre).to_multiset()));
            assert forall|a: int, b: int|
                0 <= a < b < out@.len() implies lex_leq(
                #[trigger] views(out@)[a],
                #[trigger] views(out@)[b],
            ) by {
                if b == out@.len() - 1 {
                    assert(views(out@)[a] == views(opre)[a]);
                    assert(lex_leq(views(opre)[a], views(spre)[m as int]));
                } else {
                    assert(views(out@)[a] == views(opre)[a]);
                    assert(views(out@)[b] == views(opre)[b]);
                }
            }
            assert forall|a: int, b: int|
                0 <= a < out@.len() && 0 <= b < src@.len() implies lex_leq(
                #[trigger] views(out@)[a],
                #[trigger] views(src@)[b],
            ) by {
                let b0: int = if b < m as int {
                    b
                } else {
                    b + 1
                };
                assert(views(src@)[b] == views(spre)[b0]);
                if a < out@.len() - 1 {
                    assert(views(out@)[a] == views(opre)[a]);
                    assert(lex_leq(views(opre)[a], views(spre)[b0]));
                } else {
                    assert(views(out@)[a] == x@);
                    assert(lex_leq(views(spre)[m as int], views(spre)[b0]));
                }
            }
        }
    }
    proof {
        assert(views(src@) =~= Seq::<Seq<char>>::empty());
        assert(views(out@).to_multiset().add(views(src@).to_multiset()) =~= views(
            out@,
        ).to_multiset());
    }
    out
}

/// Whether `p` is a prefix of `s`, by characters.
pub fn str_starts_with(s: &str, p: &str) -> (r: bool)
    ensures
        r == p@.is_prefix_of(s@),
{
    let ns = s.unicode_len();
    let np = p.unicode_len();
    if np > ns {
        proof {
            assert(!p@.is_prefix_of(s@));
        }
        return false;
    }
    let mut i: usize = 0;
    while i < np
        invariant
            ns == s@.len(),
            np == p@.len(),
            np <= ns,
            0 <= i <= np,
            forall|j: int| 0 <= j < i ==> s@[j] == p@[j],
        decreases np - i,
    {
        if s.get_char(i) != p.get_char(i) {
            proof {
                assert(s@.subrange(0, np as int)[i as int] == s@[i as int]);
                assert(!p@.is_prefix_of(s@));
            }
            return false;
        }
        i = i + 1;
    }
    proof {
        assert(p@ =~= s@.subrange(0, np as int));
    }
    true
}

} // verus!