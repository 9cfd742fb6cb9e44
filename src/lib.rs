//! Joins an ordered list of byte resources into one logical stream.
//!
//! Three composites share one dispatch discipline: a resource that returns
//! fewer bytes than it was offered is exhausted, and reading moves on to the
//! next one within the same call.
//! - [`MultiReaders`] pulls resources one at a time from a [`Producer`].
//! - [`MultiSeekReaders`] keeps every resource with its length and seeks.
//! - [`AsyncMultiReaders`] is the poll-based form of [`MultiReaders`].

mod source;
mod bytes;
mod seekable;
mod sequential;
mod asynchronous;

pub use source::{
    all_infallible, all_ready, lemma_all_ready_step, joined, lemma_joined_first, lemma_joined_push, lemma_joined_split, lemma_joined_take_step,
    lemma_read_keeps_concatenation, lemma_read_outcome_unique, lemma_unreads_first, present,
    read_outcome, unreads, ByteStream, Flatten, PollSource, Producer, ReadPoll, ReadSource, SeekSource,
    VecSource,
};
pub use bytes::{clamp, clamped_target, BytesReader, SeekFrom};
pub use seekable::{
    contents, lemma_current_zero_reports_position, lemma_end_reads_nothing, lemma_joined_at,
    lemma_joined_end, seek_target, start_of, Inner, MultiSeekReaders, StreamError,
};
pub use sequential::MultiReaders;
pub use asynchronous::{lemma_async_matches_sync, AsyncMultiReaders};
