//! The two cooperating producers: [`SpansBy`], which owns the source and the
//! one-item look-ahead, and [`Span`], a single-use view that yields one
//! contiguous group of items.

use vstd::prelude::*;
use vstd::pervasive::unreached;

use crate::model::first_span_len;
use crate::model::run_len;
use crate::model::spec_spans;
use crate::model::lemma_run_len_le;
use crate::model::lemma_spans_adjacent;
use crate::model::lemma_spans_boundary;
use crate::model::lemma_spans_cover;
use crate::model::lemma_spans_nonempty;
use crate::rule::Adjacency;
use crate::rule::KeyFn;

verus! {

/// The views of a sequence of collected spans: each span as the mathematical
/// sequence of its items.
pub open spec fn views_of<T>(spans: Seq<Vec<T>>) -> Seq<Seq<T>> {
    spans.map_values(|v: Vec<T>| v@)
}

/// Wraps a source sequence and hands out its contiguous spans, one at a time.
///
/// The sequencer owns the unconsumed rest of the source, the key function and
/// the adjacency predicate, together with a one-item look-ahead: the key of
/// the next unconsumed item, derived at most once per item and cached.
pub struct SpansBy<T, C, K, F> {
    /// The unconsumed items, in reverse order: the next item is the last.
    rest: Vec<T>,
    /// Derives a comparison key from an item.
    key: K,
    /// Whether two items belong to the same span, by their keys.
    are_connected: F,
    /// The cached key of the next unconsumed item, if it has been derived.
    ahead: Option<C>,
    /// How often the key function has been invoked.
    calls: Ghost<nat>,
}

/// The lifecycle of a [`Span`]: fresh before its first pull, active while it
/// yields items, exhausted once it has signalled "no more items".
pub enum SpanState {
    /// No item has been pulled through this span yet.
    Fresh,
    /// At least one item has been yielded and more may follow.
    Active,
    /// The span has ended; every further pull yields nothing.
    Exhausted,
}

/// One contiguous group of items, pulled lazily from its sequencer.
///
/// A span is obtained from [`SpansBy::next`] and yields items through
/// [`Span::next`], which must be handed the same sequencer; it remembers the
/// key of the item it most recently looked at, and ends — leaving the
/// offending item unconsumed — as soon as adjacency fails.
pub struct Span<C> {
    /// The key of the most recently looked-at source item.
    prev_key: C,
    /// Where in its lifecycle this span stands.
    state: SpanState,
}

impl<C> Span<C> {
    /// The key of the most recently looked-at source item.
    pub closed spec fn prev_key(self) -> C {
        self.prev_key
    }

    /// Where in its lifecycle this span stands.
    pub closed spec fn state(self) -> SpanState {
        self.state
    }
}

impl<T, C: Copy, K: KeyFn<T, C>, F: Adjacency<C>> SpansBy<T, C, K, F> {
    /// The unconsumed items of the source, in source order.
    pub closed spec fn remaining(self) -> Seq<T> {
        self.rest@.reverse()
    }

    /// The key function.
    pub closed spec fn key_fn(self) -> K {
        self.key
    }

    /// The adjacency predicate.
    pub closed spec fn adj_fn(self) -> F {
        self.are_connected
    }

    /// Whether the key of the next unconsumed item is cached.
    pub closed spec fn key_cached(self) -> bool {
        self.ahead is Some
    }

    /// How often the key function has been invoked so far.
    pub closed spec fn key_calls(self) -> nat {
        self.calls@
    }

    /// Well-formed: a cached key is exactly the key of the next unconsumed
    /// item.
    pub closed spec fn wf(self) -> bool {
        self.ahead matches Some(k) ==> self.remaining().len() > 0 && k == self.key.spec_key(
            self.remaining()[0],
        )
    }

    /// Wraps `source` for span segmentation under `key` and `are_connected`.
    pub fn new(source: Vec<T>, key: K, are_connected: F) -> (s: Self)
        ensures
            s.wf(),
            s.remaining() == source@,
            s.key_fn() == key,
            s.adj_fn() == are_connected,
            !s.key_cached(),
            s.key_calls() == 0,
    {
        let mut src = source;
        let mut rest: Vec<T> = Vec::new();
        loop
            invariant
                src@ + rest@.reverse() == source@,
            ensures
                rest@.reverse() == source@,
            decreases src@.len(),
        {
            let popped = src.pop();
            match popped {
                Some(t) => {
                    proof {
                        let ghost before = rest@;
                        assert(before.push(t).reverse() =~= seq![t] + before.reverse());
                    }
                    rest.push(t);
                    proof {
                        assert(src@ + rest@.reverse() =~= source@);
                    }
                }
                None => {
                    proof {
                        assert(rest@.reverse() =~= source@);
                    }
                    break ;
                }
            }
        }
        SpansBy { rest, key, are_connected, ahead: None, calls: Ghost(0nat) }
    }

    /// Derives (or recalls) the key of the next unconsumed item, caching it
    /// so the key function runs at most once per item.
    fn peek_key(&mut self) -> (k: C)
        requires
            old(self).wf(),
            old(self).remaining().len() > 0,
        ensures
            final(self).wf(),
            final(self).remaining() == old(self).remaining(),
            final(self).key_fn() == old(self).key_fn(),
            final(self).adj_fn() == old(self).adj_fn(),
            k == old(self).key_fn().spec_key(old(self).remaining()[0]),
            final(self).key_cached(),
            final(self).key_calls() == old(self).key_calls() + (if old(self).key_cached() {
                0int
            } else {
                1int
            }),
    {
        match self.ahead {
            Some(k) => k,
            None => {
                let idx = self.rest.len() - 1;
                let k = self.key.key(&self.rest[idx]);
                self.ahead = Some(k);
                self.calls = Ghost(self.calls@ + 1);
                k
            }
        }
    }

    /// Consumes and returns the next unconsumed item, dropping the cached
    /// look-ahead key that referred to it.
    fn take_next(&mut self) -> (t: T)
        requires
            old(self).wf(),
            old(self).remaining().len() > 0,
        ensures
            final(self).wf(),
            t == old(self).remaining()[0],
            final(self).remaining() == old(self).remaining().drop_first(),
            final(self).key_fn() == old(self).key_fn(),
            final(self).adj_fn() == old(self).adj_fn(),
            !final(self).key_cached(),
            final(self).key_calls() == old(self).key_calls(),
    {
        self.ahead = None;
        let popped = self.rest.pop();
        proof {
            assert(self.rest@.reverse() =~= old(self).remaining().drop_first());
        }
        match popped {
            Some(t) => t,
            None => unreached(),
        }
    }

    /// Returns the next span, or `None` exactly when the source is spent.
    ///
    /// The returned span is fresh, seeded with the key of the next unconsumed
    /// item; nothing is consumed, and a spent sequencer is left unchanged, so
    /// asking again yields `None` again.
    pub fn next(&mut self) -> (r: Option<Span<C>>)
        requires
            old(self).wf(),
        ensures
            final(self).wf(),
            final(self).remaining() == old(self).remaining(),
            final(self).key_fn() == old(self).key_fn(),
            final(self).adj_fn() == old(self).adj_fn(),
            r is Some <==> old(self).remaining().len() > 0,
            old(self).remaining().len() == 0 ==> *final(self) == *old(self),
            r matches Some(span) ==> span.state() == SpanState::Fresh && span.prev_key() == old(
                self,
            ).key_fn().spec_key(old(self).remaining()[0]) && final(self).key_cached(),
            final(self).key_calls() == old(self).key_calls() + (if old(self).remaining().len() > 0
                && !old(self).key_cached() {
                1int
            } else {
                0int
            }),
    {
        if self.rest.len() == 0 {
            None
        } else {
            let k = self.peek_key();
            Some(Span { prev_key: k, state: SpanState::Fresh })
        }
    }

    /// Drains the sequencer: every remaining span, each fully collected, in
    /// order.  The result is exactly the segmentation of the remaining items,
    /// and the key function has been invoked once per remaining item — save
    /// the first, when its key was already cached.
    ///
    /// The laws of the segmentation are stated here over the collected spans:
    /// concatenating them restores the drained items; none of them is empty;
    /// within each one, neighbouring items have adjacent keys; and between
    /// one span and the next, adjacency fails.
    pub fn collect_spans(&mut self) -> (spans: Vec<Vec<T>>)
        requires
            old(self).wf(),
        ensures
            final(self).wf(),
            final(self).remaining().len() == 0,
            final(self).key_fn() == old(self).key_fn(),
            final(self).adj_fn() == old(self).adj_fn(),
            views_of(spans@) == spec_spans(
                old(self).key_fn(),
                old(self).adj_fn(),
                old(self).remaining(),
            ),
            views_of(spans@).flatten() == old(self).remaining(),
            forall|i: int| 0 <= i < spans@.len() ==> #[trigger] spans@[i]@.len() > 0,
            forall|i: int, j: int|
                0 <= i < spans@.len() && 0 <= j < spans@[i]@.len() - 1
                    ==> #[trigger] old(self).adj_fn().spec_connected(
                    old(self).key_fn().spec_key(spans@[i]@[j]),
                    old(self).key_fn().spec_key(spans@[i]@[j + 1]),
                ),
            forall|i: int|
                0 <= i < spans@.len() - 1 ==> !(#[trigger] old(self).adj_fn().spec_connected(
                    old(self).key_fn().spec_key(spans@[i]@.last()),
                    old(self).key_fn().spec_key(spans@[i + 1]@.first()),
                )),
            !final(self).key_cached(),
            final(self).key_calls() as int == old(self).key_calls() + old(self).remaining().len()
                - (if old(self).key_cached() {
                1int
            } else {
                0int
            }),
    {
        let ghost src = self.remaining();
        let ghost k0 = self.key_fn();
        let ghost f0 = self.adj_fn();
        let ghost calls0 = self.key_calls();
        let ghost cach0: int = if self.key_cached() {
            1int
        } else {
            0int
        };
        let mut spans: Vec<Vec<T>> = Vec::new();
        loop
            invariant
                self.wf(),
                self.key_fn() == k0,
                self.adj_fn() == f0,
                spec_spans(k0, f0, src) == views_of(spans@) + spec_spans(k0, f0, self.remaining()),
                self.key_calls() as int == calls0 + (src.len() - self.remaining().len()) + (
                if self.key_cached() {
                    1int
                } else {
                    0int
                }) - cach0,
            ensures
                self.wf(),
                self.key_fn() == k0,
                self.adj_fn() == f0,
                self.remaining().len() == 0,
                spec_spans(k0, f0, src) == views_of(spans@) + spec_spans(k0, f0, self.remaining()),
                self.key_calls() as int == calls0 + (src.len() - self.remaining().len()) + (
                if self.key_cached() {
                    1int
                } else {
                    0int
                }) - cach0,
            decreases self.remaining().len(),
        {
            let span_opt = self.next();
            match span_opt {
                None => {
                    break ;
                },
                Some(mut span) => {
                    let ghost s0 = self.remaining();
                    let mut items: Vec<T> = Vec::new();
                    let first = span.next(self);
                    match first {
                        Some(t) => {
                            items.push(t);
                        },
                        None => {
                            proof {
                                assert(false);
                            }
                            break ;
                        },
                    }
                    proof {
                        assert(items@ =~= s0.take(1));
                        assert(self.remaining() =~= s0.skip(1));
                        lemma_run_len_le(k0, f0, k0.spec_key(s0[0]), s0.drop_first());
                    }
                    loop
                        invariant_except_break
                            span.state() is Active,
                            span.prev_key() == k0.spec_key(s0[items@.len() - 1]),
                            first_span_len(k0, f0, s0) == items@.len() + run_len(
                                k0,
                                f0,
                                span.prev_key(),
                                self.remaining(),
                            ),
                        invariant
                            self.wf(),
                            self.key_fn() == k0,
                            self.adj_fn() == f0,
                            1 <= items@.len() <= s0.len(),
                            items@ == s0.take(items@.len() as int),
                            self.remaining() == s0.skip(items@.len() as int),
                            self.key_calls() as int == calls0 + (src.len()
                                - self.remaining().len()) + (if self.key_cached() {
                                1int
                            } else {
                                0int
                            }) - cach0,
                        ensures
                            self.wf(),
                            self.key_fn() == k0,
                            self.adj_fn() == f0,
                            items@.len() == first_span_len(k0, f0, s0),
                            items@ == s0.take(first_span_len(k0, f0, s0) as int),
                            self.remaining() == s0.skip(first_span_len(k0, f0, s0) as int),
                            self.key_calls() as int == calls0 + (src.len()
                                - self.remaining().len()) + (if self.key_cached() {
                                1int
                            } else {
                                0int
                            }) - cach0,
                        decreases self.remaining().len(),
                    {
                        let ghost n = items@.len() as int;
                        let ghost prev0 = span.prev_key();
                        let got = span.next(self);
                        match got {
                            Some(t) => {
                                proof {
                                    assert(s0.skip(n)[0] == s0[n]);
                                    assert(run_len(k0, f0, prev0, s0.skip(n)) == 1 + run_len(
                                        k0,
                                        f0,
                                        k0.spec_key(s0[n]),
                                        s0.skip(n).drop_first(),
                                    ));
                                    assert(s0.skip(n).drop_first() =~= s0.skip(n + 1));
                                    lemma_run_len_le(k0, f0, k0.spec_key(s0[0]), s0.drop_first());
                                }
                                items.push(t);
                                proof {
                                    assert(items@ =~= s0.take(n + 1));
                                }
                            },
                            None => {
                                proof {
                                    if s0.skip(n).len() > 0 {
                                        assert(s0.skip(n)[0] == s0[n]);
                                        assert(run_len(k0, f0, prev0, s0.skip(n)) == 0);
                                    } else {
                                        assert(run_len(k0, f0, prev0, s0.skip(n)) == 0);
                                    }
                                }
                                break ;
                            },
                        }
                    }
                    let ghost built = views_of(spans@);
                    spans.push(items);
                    proof {
                        let n = first_span_len(k0, f0, s0) as int;
                        lemma_run_len_le(k0, f0, k0.spec_key(s0[0]), s0.drop_first());
                        assert(spec_spans(k0, f0, s0) == seq![s0.take(n)] + spec_spans(
                            k0,
                            f0,
                            s0.skip(n),
                        ));
                        assert(views_of(spans@) =~= built.push(items@));
                        assert(built.push(items@) + spec_spans(k0, f0, self.remaining()) =~= built
                            + (seq![items@] + spec_spans(k0, f0, self.remaining())));
                    }
                },
            }
        }
        proof {
            assert(spec_spans(k0, f0, self.remaining()) =~= Seq::<Seq<T>>::empty());
            assert(views_of(spans@) + spec_spans(k0, f0, self.remaining()) =~= views_of(spans@));
            let vs = views_of(spans@);
            assert(vs == spec_spans(k0, f0, src));
            lemma_spans_cover(k0, f0, src);
            lemma_spans_nonempty(k0, f0, src);
            lemma_spans_adjacent(k0, f0, src);
            lemma_spans_boundary(k0, f0, src);
            assert forall|i: int| 0 <= i < spans@.len() implies #[trigger] spans@[i]@.len() > 0 by {
                assert(vs[i] == spans@[i]@);
                assert(spec_spans(k0, f0, src)[i].len() > 0);
            }
            assert forall|i: int, j: int|
                0 <= i < spans@.len() && 0 <= j < spans@[i]@.len() - 1 implies #[trigger] f0.spec_connected(
                k0.spec_key(spans@[i]@[j]),
                k0.spec_key(spans@[i]@[j + 1]),
            ) by {
                assert(vs[i] == spans@[i]@);
                assert(f0.spec_connected(
                    k0.spec_key(spec_spans(k0, f0, src)[i][j]),
                    k0.spec_key(spec_spans(k0, f0, src)[i][j + 1]),
                ));
            }
            assert forall|i: int| 0 <= i < spans@.len() - 1 implies !(#[trigger] f0.spec_connected(
                k0.spec_key(spans@[i]@.last()),
                k0.spec_key(spans@[i + 1]@.first()),
            )) by {
                assert(vs[i] == spans@[i]@);
                assert(vs[i + 1] == spans@[i + 1]@);
                assert(!f0.spec_connected(
                    k0.spec_key(spec_spans(k0, f0, src)[i].last()),
                    k0.spec_key(spec_spans(k0, f0, src)[i + 1].first()),
                ));
            }
        }
        spans
    }
}

impl<C: Copy> Span<C> {
    /// Pulls the next item of this span from `seq`, the sequencer the span
    /// was obtained from, or `None` when the span is over.
    ///
    /// A fresh span consumes its seed item directly, without deriving any
    /// key.  An active span looks at the next unconsumed item: if its key is
    /// adjacent to the remembered previous key the item is consumed and
    /// yielded, otherwise the span is exhausted and the item is left in the
    /// source for the next span.  An exhausted span yields `None` for ever
    /// and touches nothing.
    pub fn next<T, K: KeyFn<T, C>, F: Adjacency<C>>(
        &mut self,
        seq: &mut SpansBy<T, C, K, F>,
    ) -> (r: Option<T>)
        requires
            old(seq).wf(),
        ensures
            final(seq).wf(),
            final(seq).key_fn() == old(seq).key_fn(),
            final(seq).adj_fn() == old(seq).adj_fn(),
            old(self).state() is Fresh && old(seq).remaining().len() > 0 ==> {
                &&& r == Some(old(seq).remaining()[0])
                &&& final(seq).remaining() == old(seq).remaining().drop_first()
                &&& !final(seq).key_cached()
                &&& final(seq).key_calls() == old(seq).key_calls()
                &&& final(self).state() is Active
                &&& final(self).prev_key() == old(self).prev_key()
            },
            old(self).state() is Fresh && old(seq).remaining().len() == 0 ==> {
                &&& r is None
                &&& *final(seq) == *old(seq)
                &&& final(self).state() is Exhausted
                &&& final(self).prev_key() == old(self).prev_key()
            },
            old(self).state() is Active && old(seq).remaining().len() == 0 ==> {
                &&& r is None
                &&& *final(seq) == *old(seq)
                &&& final(self).state() is Exhausted
                &&& final(self).prev_key() == old(self).prev_key()
            },
            old(self).state() is Active && old(seq).remaining().len() > 0 ==> {
                let k = old(seq).key_fn().spec_key(old(seq).remaining()[0]);
                &&& final(self).prev_key() == k
                &&& final(seq).key_calls() == old(seq).key_calls() + (if old(seq).key_cached() {
                    0int
                } else {
                    1int
                })
                &&& if old(seq).adj_fn().spec_connected(old(self).prev_key(), k) {
                    &&& r == Some(old(seq).remaining()[0])
                    &&& final(seq).remaining() == old(seq).remaining().drop_first()
                    &&& !final(seq).key_cached()
                    &&& final(self).state() is Active
                } else {
                    &&& r is None
                    &&& final(seq).remaining() == old(seq).remaining()
                    &&& final(seq).key_cached()
                    &&& final(self).state() is Exhausted
                }
            },
            old(self).state() is Exhausted ==> r is None && *final(seq) == *old(seq)
                && *final(self) == *old(self),
    {
        match self.state {
            SpanState::Fresh => {
                if seq.rest.len() == 0 {
                    self.state = SpanState::Exhausted;
                    None
                } else {
                    self.state = SpanState::Active;
                    Some(seq.take_next())
                }
            },
            SpanState::Active => {
                if seq.rest.len() == 0 {
                    self.state = SpanState::Exhausted;
                    None
                } else {
                    let k = seq.peek_key();
                    let prev = self.prev_key;
                    self.prev_key = k;
                    if seq.are_connected.are_connected(prev, k) {
                        Some(seq.take_next())
                    } else {
                        self.state = SpanState::Exhausted;
                        None
                    }
                }
            },
            SpanState::Exhausted => None,
        }
    }
}

/// Extends a sequence type with span segmentation.
///
/// Any ordered, single-pass source of items can implement this trait and so
/// gain [`Spans::spans_by_key`].
pub trait Spans<T>: Sized {
    /// The items of this source, in order, as a mathematical sequence.
    spec fn items(self) -> Seq<T>;

    /// Splits this source into contiguous spans: `key` derives a comparison
    /// key from each item, and `are_connected`, given the keys of two
    /// neighbouring items, says whether they belong to the same span.
    fn spans_by_key<C: Copy, K: KeyFn<T, C>, F: Adjacency<C>>(self, key: K, are_connected: F) -> (s:
        SpansBy<T, C, K, F>)
        ensures
            s.wf(),
            s.remaining() == self.items(),
            s.key_fn() == key,
            s.adj_fn() == are_connected,
            !s.key_cached(),
            s.key_calls() == 0,
    ;
}

impl<T> Spans<T> for Vec<T> {
    open spec fn items(self) -> Seq<T> {
        self@
    }

    fn spans_by_key<C: Copy, K: KeyFn<T, C>, F: Adjacency<C>>(self, key: K, are_connected: F) -> (s:
        SpansBy<T, C, K, F>) {
        SpansBy::new(self, key, are_connected)
    }
}

} // verus!
