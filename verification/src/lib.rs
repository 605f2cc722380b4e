//! Local control-plane backend for a desktop canvas editor: an in-memory
//! store of events, nodes and canvas configuration, plus a directory-walk
//! policy, with verified contracts.

pub mod handlers;
pub mod store;
pub mod strutil;
pub mod value;
pub mod walker;

pub use walker::DirEntry;
pub use walker::EntryKind;
pub use walker::Walker;

pub use handlers::ApiResponse;
pub use store::ApiError;
pub use store::Event;
pub use store::SpecEvent;
pub use store::Store;

pub use strutil::u64_to_string;
pub use strutil::i64_to_string;
pub use value::SpecVal;
pub use value::Value;

