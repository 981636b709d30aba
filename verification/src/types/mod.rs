//! SMPTE identifier types: Universal Labels, AUIDs, UUIDs and UMIDs.
pub mod auid;
pub mod ul;
pub mod umid;
pub mod uuid_id;

pub use auid::Auid;
pub use ul::Ul;
pub use umid::Umid;
pub use uuid_id::Uuid;
