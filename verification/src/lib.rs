//! Split a sequence into contiguous spans of adjacent items.
//!
//! A *span* is a maximal run of neighbouring items whose derived keys satisfy
//! an adjacency predicate pairwise.  The [`Spans`] trait equips a source
//! sequence with [`Spans::spans_by_key`], which wraps it in a [`SpansBy`]
//! sequencer.  The sequencer hands out one [`Span`] at a time; each span is
//! pulled item by item and ends, without consuming the offending item, as soon
//! as adjacency fails.  Key functions and adjacency predicates are supplied as
//! types implementing [`KeyFn`] and [`Adjacency`], so that every contract can
//! speak of the keys and of the predicate as mathematical functions.

use vstd::prelude::*;

mod model;
mod rule;
mod rules;
mod sequencer;

verus! {

pub use crate::model::first_span_len;
pub use crate::model::run_len;
pub use crate::model::spec_spans;
pub use crate::model::lemma_run_len_le;
pub use crate::model::lemma_spans_cover;
pub use crate::model::lemma_spans_nonempty;
pub use crate::model::lemma_spans_adjacent;
pub use crate::model::lemma_spans_boundary;
pub use crate::model::lemma_spans_empty_source;
pub use crate::rule::Adjacency;
pub use crate::rule::KeyFn;
pub use crate::rules::ByteLen;
pub use crate::rules::FirstChar;
pub use crate::rules::IdentityKey;
pub use crate::rules::KeysEqual;
pub use crate::rules::Successor;
pub use crate::sequencer::views_of;
pub use crate::sequencer::Span;
pub use crate::sequencer::SpanState;
pub use crate::sequencer::Spans;
pub use crate::sequencer::SpansBy;

} // verus!
