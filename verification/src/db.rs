//! Shapes of what the SQLite cache stores and reads back.
//!
//! The database itself is a derived cache plus an append-only run log; the
//! SQL lives with the I/O shell. What is decided here: how a stored source
//! column reads back as a `SourceType`, and the `LIKE` pattern a history
//! filter uses.

use vstd::prelude::*;
use crate::discovery::{source_of_text, source_text, SourceType};
use crate::text::{chars_of, string_of};

verus! {

/// One recorded run, newest-first in listings.
#[derive(Debug, Clone)]
pub struct HistoryRow {
    pub id: i64,
    pub name: String,
    pub source: String,
    pub resolved_command: String,
    pub cwd: String,
    pub exit_code: Option<i64>,
    pub duration_ms: i64,
    pub started_at: i64,
}

/// The source a stored column names; an unknown text reads as npm.
pub open spec fn source_of_column(s: Seq<char>) -> SourceType {
    match source_of_text(s) {
        Some(t) => t,
        None => SourceType::Npm,
    }
}

/// Read a stored `source` column back as a `SourceType`.
pub fn source_from_column(s: &str) -> (r: SourceType)
    ensures
        r == source_of_column(s@),
{
    match SourceType::from_str(s) {
        Some(t) => t,
        None => SourceType::Npm,
    }
}

/// The column `make` reads as Make; every other text reads as npm.
pub proof fn lemma_source_column_cases(s: Seq<char>)
    ensures
        source_of_column(s) == SourceType::Make <==> s == "make"@,
        source_of_column(s) == SourceType::Npm <==> s != "make"@,
{
    reveal_strlit("npm");
    reveal_strlit("make");
    assert("npm"@ != "make"@) by {
        assert("npm"@.len() != "make"@.len());
    }
}

/// A source written to the cache (as its text) reads back unchanged.
pub proof fn lemma_source_column_roundtrip(s: SourceType)
    ensures
        source_of_column(source_text(s)) == s,
{
    crate::discovery::lemma_source_text_roundtrip(s);
}

/// The `LIKE` pattern matching any text that contains `query`.
pub fn like_pattern(query: &str) -> (r: String)
    ensures
        r@ == seq!['%'] + query@ + seq!['%'],
{
    let q = chars_of(query);
    let mut v: Vec<char> = Vec::new();
    v.push('%');
    let mut i: usize = 0;
    while i < q.len()
        invariant
            i <= q.len(),
            q@ == query@,
            v@ == seq!['%'] + query@.take(i as int),
        decreases q.len() - i,
    {
        v.push(q[i]);
        i += 1;
        assert(v@ =~= seq!['%'] + query@.take(i as int));
    }
    v.push('%');
    assert(query@.take(q.len() as int) =~= query@);
    string_of(&v)
}

} // verus!
