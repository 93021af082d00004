use vstd::prelude::*;

use crate::tags::normalize_spec;
use crate::tags::normalize_tags;
use crate::text::trim_blanks;
use crate::text::trim_spec;
use crate::text::views;

verus! {

/// One parameter of a prepared statement.
pub enum SqlValue {
    Text(String),
    Int(i64),
}

/// A ready-to-prepare search statement: its text and its parameters, in
/// binding order.
pub struct SearchPlan {
    pub sql: String,
    pub args: Vec<SqlValue>,
}

/// The placeholder list `?, ?, ..., ?` with `n` entries.
pub open spec fn placeholders(n: int) -> Seq<char>
    decreases n,
{
    if n <= 1 {
        "?"@
    } else {
        placeholders(n - 1) + ", ?"@
    }
}

/// The text of the search statement, assembled from its optional filter
/// stages: the full-text join and predicate when a query was given, the tag
/// join, predicate and grouping when tags were given, then the ordering and
/// the limit.
pub open spec fn search_sql_spec(has_text: bool, tag_count: int) -> Seq<char> {
    "SELECT n.id, n.content FROM notes n "@ + (if has_text {
        "JOIN notes_fts ON notes_fts.note_id = n.id "@
    } else {
        Seq::<char>::empty()
    }) + (if tag_count > 0 {
        "JOIN notes_tags nt ON nt.note_id = n.id JOIN tags t ON t.id = nt.tag_id "@
    } else {
        Seq::<char>::empty()
    }) + "WHERE n.deleted_at IS NULL "@ + (if has_text {
        "AND notes_fts MATCH ? "@
    } else {
        Seq::<char>::empty()
    }) + (if tag_count > 0 {
        "AND t.name IN ("@ + placeholders(tag_count) + ") GROUP BY n.id HAVING COUNT(DISTINCT t.name) = ? "@
    } else {
        Seq::<char>::empty()
    }) + (if has_text {
        "ORDER BY rank, n.updated_at DESC "@
    } else {
        "ORDER BY n.updated_at DESC "@
    }) + "LIMIT ?"@
}

/// Builds the search statement for a query, a tag filter and a row limit.
///
/// The parameters come in binding order: the trimmed query when one was
/// given, then each normalized tag name, then the tag count when tags were
/// given, then the limit.
pub fn build_search_plan(query: &str, tags: &Vec<String>, limit: i64) -> (r: SearchPlan)
    ensures
        ({
            let hasq = trim_spec(query@).len() > 0;
            let tn = normalize_spec(views(tags@));
            let base = if hasq {
                1int
            } else {
                0int
            };
            &&& r.sql@ == search_sql_spec(hasq, tn.len() as int)
            &&& r.args@.len() == base + tn.len() + (if tn.len() > 0 {
                1int
            } else {
                0int
            }) + 1
            &&& (hasq ==> (r.args@[0] matches SqlValue::Text(q) && q@ == trim_spec(query@)))
            &&& (forall|k: int|
                base <= k < base + tn.len() ==> ((#[trigger] r.args@[k]) matches SqlValue::Text(t)
                    && t@ == tn[k - base]))
            &&& (tn.len() > 0 ==> (r.args@[r.args@.len() - 2] matches SqlValue::Int(c) && c
                == tn.len() as i64))
            &&& (r.args@[r.args@.len() - 1] matches SqlValue::Int(l) && l == limit)
        }),
{
    let qt = trim_blanks(query);
    let hasq = !qt.as_str().is_empty();
    let tn = normalize_tags(tags);
    let ntags = tn.len();

    let mut sql = String::new();
    sql.append("SELECT n.id, n.content FROM notes n ");
    if hasq {
        sql.append("JOIN notes_fts ON notes_fts.note_id = n.id ");
    }
    if ntags > 0 {
        sql.append("JOIN notes_tags nt ON nt.note_id = n.id JOIN tags t ON t.id = nt.tag_id ");
    }
    sql.append("WHERE n.deleted_at IS NULL ");
    if hasq {
        sql.append("AND notes_fts MATCH ? ");
    }
    if ntags > 0 {
        sql.append("AND t.name IN (");
        sql.append("?");
        proof {
            assert(sql@ =~= search_sql_prefix(trim_spec(query@).len() > 0, ntags as int)
                + placeholders(1));
        }
        let mut k: usize = 1;
        while k < ntags
            invariant
                1 <= k <= ntags,
                ntags == tn@.len(),
                sql@ == search_sql_prefix(trim_spec(query@).len() > 0, ntags as int)
                    + placeholders(k as int),
            decreases ntags - k,
        {
            sql.append(", ?");
            proof {
                assert(placeholders(k + 1) == placeholders(k as int) + ", ?"@);
                assert(sql@ =~= search_sql_prefix(trim_spec(query@).len() > 0, ntags as int)
                    + placeholders(k + 1));
            }
            k = k + 1;
        }
        sql.append(") GROUP BY n.id HAVING COUNT(DISTINCT t.name) = ? ");
    }
    if hasq {
        sql.append("ORDER BY rank, n.updated_at DESC ");
    } else {
        sql.append("ORDER BY n.updated_at DESC ");
    }
    sql.append("LIMIT ?");
    proof {
        assert(views(tn@).len() == tn@.len());
        assert(sql@ =~= search_sql_spec(
            trim_spec(query@).len() > 0,
            normalize_spec(views(tags@)).len() as int,
        ));
    }

    let mut args: Vec<SqlValue> = Vec::new();
    if hasq {
        args.push(SqlValue::Text(qt));
    }
    let mut k: usize = 0;
    let ghost base: int = if hasq {
        1int
    } else {
        0int
    };
    while k < ntags
        invariant
            0 <= k <= ntags,
            ntags == tn@.len(),
            args@.len() == base + k,
            base == if trim_spec(query@).len() > 0 {
                1int
            } else {
                0int
            },
            base == 1 ==> (args@[0] matches SqlValue::Text(q) && q@ == trim_spec(query@)),
            views(tn@) == normalize_spec(views(tags@)),
            forall|j: int|
                base <= j < base + k ==> ((#[trigger] args@[j]) matches SqlValue::Text(t) && t@
                    == views(tn@)[j - base]),
        decreases ntags - k,
    {
        proof {
            assert(views(tn@)[k as int] == tn@[k as int]@);
        }
        args.push(SqlValue::Text(tn[k].clone()));
        k = k + 1;
    }
    if ntags > 0 {
        args.push(SqlValue::Int(ntags as i64));
    }
    args.push(SqlValue::Int(limit));
    SearchPlan { sql: sql, args: args }
}

/// The statement text up to and including `AND t.name IN (`, for a build
/// that has tags.
pub open spec fn search_sql_prefix(has_text: bool, tag_count: int) -> Seq<char> {
    "SELECT n.id, n.content FROM notes n "@ + (if has_text {
        "JOIN notes_fts ON notes_fts.note_id = n.id "@
    } else {
        Seq::<char>::empty()
    }) + "JOIN notes_tags nt ON nt.note_id = n.id JOIN tags t ON t.id = nt.tag_id "@
        + "WHERE n.deleted_at IS NULL "@ + (if has_text {
        "AND notes_fts MATCH ? "@
    } else {
        Seq::<char>::empty()
    }) + "AND t.name IN ("@
}

} // verus!
