//! What agents cost, and where they left off.
//!
//! Agents publish one encrypted metric per turn. Here these are folded into
//! totals per agent, and the totals are put into a table or a panel. Agents also
//! keep, across restarts, how far they have processed each channel.

pub mod accounting;
pub mod digest;
pub mod display;
pub mod display_laws;
pub mod event_laws;
pub mod events;
pub mod json;
pub mod markdown;
pub mod markdown_laws;
pub mod metric;
pub mod names;
pub mod paths;
pub mod profile;
pub mod profile_laws;
pub mod relay;
pub mod report;
pub mod rollup;
pub mod rollup_laws;
pub mod save;
pub mod table_laws;
pub mod tally;
pub mod tally_laws;
pub mod text;
pub mod watermark;
pub mod watermark_laws;
