//! Anonymised voice-call traces: the stored format, and the live pipeline that
//! rebases, sanitises, merges and anonymises the events of one call.

mod consts;
mod event;
pub mod extension;
mod label;
pub mod traces;
pub mod rtcp;
pub mod live;
pub mod merge;
pub mod anonymise;
pub mod receiver;

pub use consts::{LISTENER_ID, MISSING_ID};
pub use event::{Event, TimedEvent};
pub use extension::{
    Extension, SubExtension, TopExtension, is_safe_sub_extension, is_safe_top_extension,
    parse_extension,
};
pub use label::Label;
pub use traces::FelyneTrace;
