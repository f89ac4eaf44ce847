pub mod account;
pub mod config;
pub mod idset;
pub mod lists;
pub mod membership;
pub mod pagination;
pub mod reconcile;
pub mod sources;

pub use account::AccountId;
pub use account::AccountRef;
pub use config::BskyLogin;
pub use config::EarmuffsConfig;
pub use idset::DidSet;
pub use lists::ListAction;
pub use lists::ListDirectory;
pub use lists::ListHandle;
pub use lists::ListingFetch;
pub use lists::ListPage;
pub use lists::plan_list_action;
pub use membership::MemberPage;
pub use membership::MembershipFetch;
pub use membership::MembershipMap;
pub use membership::MembershipRecord;
pub use pagination::Page;
pub use pagination::RelationshipFetch;
pub use reconcile::ReconciliationPlan;
pub use reconcile::reconcile;
pub use sources::Blocklist;
pub use sources::Source;
pub use sources::collect_literal;
pub use sources::literal_handles;
pub use sources::resolve_blocklist;
pub use sources::resolve_sources;
