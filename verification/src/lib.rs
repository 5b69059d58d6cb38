//! The logic of a dashboard for reviewing Croissant metadata: the pages that it shows, the
//! checks that approve fields, and the changes that users make to documents.
pub mod apply;
pub mod compare;
pub mod document;
pub mod export;
pub mod fields;
pub mod fixes;
pub mod home;
pub mod issues;
pub mod json;
pub mod lookup;
pub mod number;
pub mod order;
pub mod paging;
pub mod paths;
pub mod patterns;
pub mod reconcile;
pub mod review;
pub mod runs;
pub mod schema;
pub mod text;
pub mod validate;
