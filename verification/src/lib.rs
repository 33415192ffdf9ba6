//! A directory of license entitlements, one entry per customer, vessel
//! and license key, backed by a sorted key-value store: the composite-key
//! scheme, the cursor-based pagination protocol over the store's range
//! query, and the two-tier error taxonomy that separates infrastructure
//! failures from domain-level absence.

pub mod api_error;
pub mod composite_key;
pub mod decimal;
pub mod item;
pub mod laws;
pub mod license_dao;
pub mod model;
pub mod runtime_error;
pub mod table;
pub mod text;

pub use crate::api_error::ApiError;
pub use crate::license_dao::LicenseDao;
pub use crate::model::DynamoResultsPage;
pub use crate::model::License;
pub use crate::runtime_error::RuntimeError;
pub use crate::table::LicenseTable;
