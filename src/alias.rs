//! Short names for kind patterns, looked up per language and then globally.

use vstd::prelude::*;
use crate::pattern::{Pattern, PatternError, pattern_is_valid};

verus! {

/// One alias: in `language`'s tier, or in the global tier when `language`
/// is `None`, the short `token` stands for `pattern`.
#[derive(Debug, Clone)]
pub struct AliasEntry {
    pub language: Option<String>,
    pub token: String,
    pub pattern: String,
}

/// The aliases of a run; the first entry for a tier and token wins.
#[derive(Debug, Clone)]
pub struct AliasTable {
    pub entries: Vec<AliasEntry>,
}

pub open spec fn tier_is(e: AliasEntry, language: Option<Seq<char>>) -> bool {
    match (e.language, language) {
        (None, None) => true,
        (Some(l), Some(m)) => l@ == m,
        _ => false,
    }
}

pub open spec fn tier_of(language: Option<&String>) -> Option<Seq<char>> {
    match language {
        Some(l) => Some(l@),
        None => None,
    }
}

/// The pattern of the first of `es`, from `k` on, for `token` in `language`'s tier.
pub open spec fn lookup_from(
    es: Seq<AliasEntry>,
    language: Option<Seq<char>>,
    token: Seq<char>,
    k: int,
) -> Option<Seq<char>>
    decreases es.len() - k,
{
    if k < 0 || k >= es.len() {
        None
    } else if tier_is(es[k], language) && es[k].token@ == token {
        Some(es[k].pattern@)
    } else {
        lookup_from(es, language, token, k + 1)
    }
}

impl AliasTable {
    /// The table without any alias.
    pub fn empty() -> (r: AliasTable)
        ensures
            r.entries@.len() == 0,
    {
        AliasTable { entries: Vec::new() }
    }

    /// The alias of `token` in one tier: a language's, or the global one for `None`.
    pub open spec fn lookup(&self, language: Option<Seq<char>>, token: Seq<char>) -> Option<
        Seq<char>,
    > {
        lookup_from(self.entries@, language, token, 0)
    }

    /// The kind pattern that `token` stands for in `language`: its entry in
    /// the language's tier, else its global entry, else the token itself.
    pub open spec fn resolved(&self, language: Seq<char>, token: Seq<char>) -> Seq<char> {
        match self.lookup(Some(language), token) {
            Some(p) => p,
            None => match self.lookup(None, token) {
                Some(p) => p,
                None => token,
            },
        }
    }

    /// The alias of `token` in one tier.
    pub fn find(&self, language: Option<&String>, token: &String) -> (r: Option<&String>)
        ensures
            r matches Some(p) ==> self.lookup(tier_of(language), token@) == Some(p@),
            r is None ==> self.lookup(tier_of(language), token@) is None,
    {
        let ghost tier = tier_of(language);
        let mut k: usize = 0;
        while k < self.entries.len()
            invariant
                0 <= k <= self.entries@.len(),
                tier == tier_of(language),
                self.lookup(tier, token@) == lookup_from(self.entries@, tier, token@, k as int),
            decreases self.entries.len() - k,
        {
            let e = &self.entries[k];
            let same_tier = match (&e.language, language) {
                (None, None) => true,
                (Some(l), Some(m)) => l.eq(m),
                _ => false,
            };
            assert(same_tier == tier_is(self.entries@[k as int], tier));
            if same_tier && e.token.eq(token) {
                return Some(&e.pattern);
            }
            k = k + 1;
        }
        None
    }

    /// The kind pattern that `token` stands for in `language`.
    pub fn resolve(&self, language: &String, token: &String) -> (r: String)
        ensures
            r@ == self.resolved(language@, token@),
    {
        match self.find(Some(language), token) {
            Some(p) => p.clone(),
            None => match self.find(None, token) {
                Some(p) => p.clone(),
                None => token.clone(),
            },
        }
    }

    /// The kind filter of a search: none when no kind is asked for, which
    /// passes every node; else the compiled pattern that the kind resolves to,
    /// which fails exactly when that pattern is invalid.
    pub fn kind_filter(&self, language: &String, kind: &Option<String>) -> (r: Result<
        Option<Pattern>,
        PatternError,
    >)
        ensures
            kind is None ==> r == Ok::<Option<Pattern>, PatternError>(None),
            kind matches Some(t) ==> (r.is_ok() <==> pattern_is_valid(self.resolved(language@, t@))),
            kind matches Some(t) ==> (r matches Ok(f) ==> f matches Some(p) && p.source() == self.resolved(language@, t@)),
            kind matches Some(t) ==> (r matches Err(e) ==> e.pattern@ == self.resolved(language@, t@)),
    {
        match kind {
            None => Ok(None),
            Some(t) => {
                let p = self.resolve(language, t);
                match Pattern::new(p.as_str()) {
                    Ok(pat) => Ok(Some(pat)),
                    Err(e) => Err(e),
                }
            },
        }
    }
}

/// A language's own alias wins over the global one.
pub proof fn lemma_language_alias_first(table: AliasTable, language: Seq<char>, token: Seq<char>)
    requires
        table.lookup(Some(language), token) is Some,
    ensures
        table.resolved(language, token) == table.lookup(Some(language), token)->Some_0,
{
}

/// The global alias applies when the language has none.
pub proof fn lemma_global_alias_fallback(table: AliasTable, language: Seq<char>, token: Seq<char>)
    requires
        table.lookup(Some(language), token) is None,
        table.lookup(None, token) is Some,
    ensures
        table.resolved(language, token) == table.lookup(None, token)->Some_0,
{
}

/// Without an alias in either tier the token is the pattern itself.
pub proof fn lemma_unaliased_token(table: AliasTable, language: Seq<char>, token: Seq<char>)
    requires
        table.lookup(Some(language), token) is None,
        table.lookup(None, token) is None,
    ensures
        table.resolved(language, token) == token,
{
}

} // verus!
