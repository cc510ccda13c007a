use vstd::prelude::*;

use crate::meta::Meta;
use crate::prefix::PrefixId;
use crate::record::{PrefixRecord, Record};

verus! {

/// What kind of match a query asks for, and what kind of match a result is.
#[derive(Clone, Copy, Debug, PartialEq, Eq, Structural)]
pub enum MatchType {
    ExactMatch,
    LongestMatch,
    EmptyMatch,
}

impl MatchType {
    /// A short description, in place of `Display`.
    pub fn describe(&self) -> (r: &'static str)
        ensures
            r@ =~= match self {
                MatchType::ExactMatch => "exact-match"@,
                MatchType::LongestMatch => "longest-match"@,
                MatchType::EmptyMatch => "empty-match"@,
            },
    {
        match self {
            MatchType::ExactMatch => "exact-match",
            MatchType::LongestMatch => "longest-match",
            MatchType::EmptyMatch => "empty-match",
        }
    }
}

/// The options of a match query: the match kind, whether withdrawn records
/// are returned, whether the less and more specific prefixes are attached,
/// and an optional producer filter.
#[derive(Clone, Copy, Debug, PartialEq, Eq, Structural)]
pub struct MatchOptions {
    pub match_type: MatchType,
    pub include_withdrawn: bool,
    pub include_less_specifics: bool,
    pub include_more_specifics: bool,
    pub mui: Option<u32>,
}

/// The answer of a match query.
#[derive(Debug)]
pub struct QueryResult<M> {
    pub match_type: MatchType,
    pub prefix: Option<PrefixId>,
    pub records: Vec<Record<M>>,
    pub less_specifics: Option<Vec<PrefixRecord<M>>>,
    pub more_specifics: Option<Vec<PrefixRecord<M>>>,
}

impl<M: Meta> QueryResult<M> {
    /// An empty result.
    pub fn empty() -> (r: QueryResult<M>)
        ensures
            r.match_type == MatchType::EmptyMatch,
            r.prefix is None,
            r.records@.len() == 0,
            r.less_specifics is None,
            r.more_specifics is None,
    {
        QueryResult {
            match_type: MatchType::EmptyMatch,
            prefix: None,
            records: Vec::new(),
            less_specifics: None,
            more_specifics: None,
        }
    }
}

} // verus!
