//! A personal stack of tasks, backed by an append-only log file.
//!
//! The log holds length-prefixed binary records; the current stack is a
//! pure function of the record sequence, replayed oldest first with Pop
//! records acting as tombstones. The file itself is read and written by
//! the surrounding command-line glue; everything here works on the bytes
//! and the records.

mod codec;
mod output;
mod record;
mod stack;

pub use codec::{
    frameable, lemma_append_only, lemma_decode_tight, lemma_read_idempotent, lemma_read_log_bytes,
    lemma_round_trip,
    spec_decode, spec_encode, spec_frame, spec_log_bytes, spec_read_all, spec_tag,
    spec_u32_from_be_bytes, spec_u32_to_be_bytes,
};
pub use output::print_all_items;
pub use record::{items_view, logs_view, Item, ItemModel, Log, LogCommand, LogModel, ReadError};
pub use stack::{
    lemma_tombstone_suppresses_all, lemma_top_bounds, load_items, load_raw, plan_pop, reconstruct, spec_adds, spec_is_live,
    spec_item_of, spec_live, spec_live_from, spec_stack, spec_stack_from, spec_tombs, spec_top,
    top_items, Config,
};
