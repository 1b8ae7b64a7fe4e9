//! Parsing of Discord message text into structured parts.
//!
//! A message is scanned for formatting tags (`<@123>`, `<#123>`, `<@&123>`,
//! `<:name:123>`, `<t:0:R>`) and for Unicode emoji from a caller-supplied
//! table. Every byte of the message ends up in exactly one part.
//!
//! The main entry points are [`MessagePart::parse`] and [`MessagePart`]'s
//! `From<&str>` implementation, which looks for tags only. A timestamp is
//! rendered by [`TimestampStyle::fmt`].

pub mod civil;
pub mod decimal;
pub mod emoji;
pub mod message;
pub mod order;
pub mod part;
pub mod relative;
pub mod scan;
pub mod segment;
pub mod style;
pub mod tag;
pub mod text;
pub mod twemoji;

pub use crate::civil::{CivilTime, Weekday};
pub use crate::emoji::{parse_unicode, EmojiTable};
pub use crate::message::MessageExt;
pub use crate::part::MessagePart;
pub use crate::relative::timestamp_relative;
pub use crate::style::TimestampStyle;
