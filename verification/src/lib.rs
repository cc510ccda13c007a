use vstd::prelude::*;

mod entry;
mod guard;
mod laws;
mod match_options;
mod persist;
mod query;
mod rib;
mod tree;
mod errors;
mod meta;
mod prefix;
mod record;

pub use match_options::MatchOptions;
pub use match_options::MatchType;
pub use match_options::QueryResult;
pub use errors::FatalError;
pub use laws::lemma_best_path_freshness;
pub use laws::lemma_best_path_order;
pub use laws::lemma_idempotent_withdraw;
pub use laws::lemma_idempotent_withdraw_global;
pub use laws::lemma_insert_then_lpm;
pub use laws::lemma_mui_unique;
pub use laws::lemma_prefixes_distinct;
pub use laws::lemma_withdrawal_full_set;
pub use laws::lemma_withdrawal_masking;
pub use rib::PersistStrategy;
pub use rib::SizedStride;
pub use rib::Stats;
pub use rib::Store;
pub use rib::StoreConfig;
pub use persist::encode_record_key;
pub use persist::encode_record_value;
pub use persist::lemma_value_round_trip;
pub use persist::parse_record_value;
pub use persist::PersistTree;
pub use errors::PrefixStoreError;
pub use meta::Meta;
pub use meta::NoMeta;
pub use meta::PrefixAs;
pub use prefix::Fam;
pub use prefix::PrefixId;
pub use record::PrefixRecord;
pub use record::Record;
pub use record::RouteStatus;
pub use record::UpsertCounters;
pub use record::UpsertReport;
pub use record::counter_update;

verus! {

} // verus!
