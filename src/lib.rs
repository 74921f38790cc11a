//! A growable double-ended ring buffer over one contiguous allocation.
//!
//! The occupied and the free parts of the storage are handed out as at most
//! two slices each, so that bulk transfers can fill or drain the buffer in
//! place; the caller then reports how many slots became live or free.

mod layout;
mod ring;

pub use layout::{
    all_some, back_gap_len, back_len, fill_from, head_gap_len, head_len, holds_appended,
    holds_prepended, layout_ok, lemma_append_round_trip, lemma_growth_transparent,
    lemma_live_update, lemma_prepend_round_trip, lemma_regions_partition, ring_dist, ring_ok,
    ring_seq, ring_slot, ring_window, shifted_front,
};
pub use ring::{grown_capacity, min_cap, min_cap_spec, VecRng};
