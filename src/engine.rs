//! Searching one parsed file: the kind filter is resolved through the alias
//! table for the file's language, then the tree is searched.

use vstd::prelude::*;
use crate::alias::AliasTable;
use crate::pattern::{Pattern, PatternError, pattern_is_valid};
use crate::tree::{MatchResult, SyntaxTree};

verus! {

/// `filter` is the kind filter that `kind` asks for in `language`: none
/// without a kind, else a pattern compiled from what the kind resolves to.
pub open spec fn filter_for(
    filter: Option<Pattern>,
    table: AliasTable,
    language: Seq<char>,
    kind: Option<Seq<char>>,
) -> bool {
    match kind {
        None => filter is None,
        Some(t) => filter matches Some(p) && p.source() == table.resolved(language, t),
    }
}

pub open spec fn kind_view(kind: Option<String>) -> Option<Seq<char>> {
    match kind {
        Some(t) => Some(t@),
        None => None,
    }
}

/// The matches in one file's tree of the `kind` asked for (resolved through
/// `table` for `language`) and of `content`; all of them with `show_all`,
/// otherwise the first. Fails exactly when the resolved kind pattern does not
/// compile.
pub fn find_matches(
    tree: &SyntaxTree,
    source: &[u8],
    table: &AliasTable,
    language: &String,
    kind: &Option<String>,
    content: &Pattern,
    show_all: bool,
) -> (r: Result<Vec<MatchResult>, PatternError>)
    requires
        tree.wf(source@.len()),
    ensures
        r.is_err() <==> (kind matches Some(t) && !pattern_is_valid(table.resolved(language@, t@))),
        r matches Ok(found) ==> exists|f: Option<Pattern>|
            filter_for(f, *table, language@, kind_view(*kind)) && tree.search_result(
                source@,
                f,
                *content,
                show_all,
                found@,
            ),
{
    match table.kind_filter(language, kind) {
        Ok(f) => {
            let found = tree.search(source, &f, content, show_all);
            assert(filter_for(f, *table, language@, kind_view(*kind)));
            Ok(found)
        },
        Err(e) => Err(e),
    }
}

} // verus!
