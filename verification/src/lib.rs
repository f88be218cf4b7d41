//! Systole: the verified core of an agent-native game engine's authoring
//! graph — stable ids, the capability policy, the audit chain's identifiers
//! and timestamps, the project hash, and the RPG module's tile geometry and
//! reachability.

pub mod audit;
pub mod capability;
pub mod catalog;
pub mod chain;
pub mod civil;
pub mod collision;
pub mod commit;
pub mod corridor;
pub mod doctor;
pub mod edits;
pub mod engine;
pub mod finding;
pub mod fixture;
pub mod ids;
pub mod integrity;
pub mod json;
pub mod ir;
pub mod layers;
pub mod module;
pub mod observed;
pub mod op;
pub mod ops;
pub mod paint;
pub mod prepare;
pub mod query;
pub mod reachability;
pub mod reference;
pub mod regions;
pub mod revision;
pub mod rollback;
pub mod schema;
pub mod select;
pub mod text;
pub mod tx;
pub mod walk;
