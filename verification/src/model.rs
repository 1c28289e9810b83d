//! The mathematical model of span segmentation.
//!
//! [`spec_spans`] says, once and for all, what splitting a finite sequence
//! into spans means: the first span is the longest prefix whose items are
//! pairwise adjacent under the derived keys, and the rest is the segmentation
//! of what follows.  The executable sequencer is proved to produce exactly
//! this segmentation, and the laws of the segmentation are proved here.

use vstd::prelude::*;

use crate::rule::Adjacency;
use crate::rule::KeyFn;

verus! {

/// How many items of `s` continue a span whose most recent key is `prev`:
/// the length of the longest prefix of `s` in which each item's key is
/// adjacent to the key before it, starting from `prev`.
pub open spec fn run_len<T, C, K: KeyFn<T, C>, F: Adjacency<C>>(
    key: K,
    conn: F,
    prev: C,
    s: Seq<T>,
) -> nat
    decreases s.len(),
{
    if s.len() == 0 {
        0
    } else if conn.spec_connected(prev, key.spec_key(s[0])) {
        (run_len(key, conn, key.spec_key(s[0]), s.drop_first()) + 1) as nat
    } else {
        0
    }
}

/// A run never outgrows the sequence it is taken from.
pub proof fn lemma_run_len_le<T, C, K: KeyFn<T, C>, F: Adjacency<C>>(
    key: K,
    conn: F,
    prev: C,
    s: Seq<T>,
)
    ensures
        run_len(key, conn, prev, s) <= s.len(),
    decreases s.len(),
{
    if s.len() > 0 && conn.spec_connected(prev, key.spec_key(s[0])) {
        lemma_run_len_le(key, conn, key.spec_key(s[0]), s.drop_first());
    }
}

/// The length of the first span of `s`: zero only on an empty sequence,
/// otherwise the first item plus the run its key starts.
pub open spec fn first_span_len<T, C, K: KeyFn<T, C>, F: Adjacency<C>>(
    key: K,
    conn: F,
    s: Seq<T>,
) -> nat {
    if s.len() == 0 {
        0
    } else {
        (run_len(key, conn, key.spec_key(s[0]), s.drop_first()) + 1) as nat
    }
}

/// The segmentation of `s` into spans: maximal runs of items whose keys are
/// pairwise adjacent, in source order.
pub open spec fn spec_spans<T, C, K: KeyFn<T, C>, F: Adjacency<C>>(
    key: K,
    conn: F,
    s: Seq<T>,
) -> Seq<Seq<T>>
    decreases s.len(),
{
    if s.len() == 0 {
        Seq::empty()
    } else {
        proof {
            lemma_run_len_le(key, conn, key.spec_key(s[0]), s.drop_first());
        }
        let n = first_span_len(key, conn, s) as int;
        seq![s.take(n)] + spec_spans(key, conn, s.skip(n))
    }
}

/// Coverage law: concatenating the spans of `s`, in order, gives back `s`
/// itself — same items, same order, same count.
pub proof fn lemma_spans_cover<T, C, K: KeyFn<T, C>, F: Adjacency<C>>(key: K, conn: F, s: Seq<T>)
    ensures
        spec_spans(key, conn, s).flatten() == s,
    decreases s.len(),
{
    if s.len() == 0 {
        assert(spec_spans(key, conn, s).flatten() =~= s);
    } else {
        lemma_run_len_le(key, conn, key.spec_key(s[0]), s.drop_first());
        let n = first_span_len(key, conn, s) as int;
        let ss = spec_spans(key, conn, s);
        lemma_spans_cover(key, conn, s.skip(n));
        assert(ss.drop_first() =~= spec_spans(key, conn, s.skip(n)));
        assert(ss.flatten() == s.take(n) + s.skip(n));
        assert(s.take(n) + s.skip(n) =~= s);
    }
}

/// Empty-source law: an empty source yields zero spans.
pub proof fn lemma_spans_empty_source<T, C, K: KeyFn<T, C>, F: Adjacency<C>>(
    key: K,
    conn: F,
    s: Seq<T>,
)
    ensures
        s.len() == 0 ==> spec_spans(key, conn, s).len() == 0,
        spec_spans(key, conn, s).len() == 0 ==> s.len() == 0,
{
}

/// Non-empty span law: every span of a segmentation holds at least one item.
pub proof fn lemma_spans_nonempty<T, C, K: KeyFn<T, C>, F: Adjacency<C>>(
    key: K,
    conn: F,
    s: Seq<T>,
)
    ensures
        forall|i: int|
            0 <= i < spec_spans(key, conn, s).len() ==> #[trigger] spec_spans(
                key,
                conn,
                s,
            )[i].len() > 0,
    decreases s.len(),
{
    if s.len() > 0 {
        lemma_run_len_le(key, conn, key.spec_key(s[0]), s.drop_first());
        let n = first_span_len(key, conn, s) as int;
        lemma_spans_nonempty(key, conn, s.skip(n));
        let ss = spec_spans(key, conn, s);
        assert forall|i: int| 0 <= i < ss.len() implies #[trigger] ss[i].len() > 0 by {
            if i == 0 {
                assert(ss[0] == s.take(n));
            } else {
                assert(ss[i] == spec_spans(key, conn, s.skip(n))[i - 1]);
            }
        }
    }
}

/// Within a run continued from `prev`, every key is adjacent to the one
/// before it.
proof fn lemma_run_adjacent<T, C, K: KeyFn<T, C>, F: Adjacency<C>>(
    key: K,
    conn: F,
    prev: C,
    s: Seq<T>,
)
    ensures
        run_len(key, conn, prev, s) > 0 ==> conn.spec_connected(prev, key.spec_key(s[0])),
        forall|j: int|
            1 <= j < run_len(key, conn, prev, s) ==> #[trigger] conn.spec_connected(
                key.spec_key(s[j - 1]),
                key.spec_key(s[j]),
            ),
    decreases s.len(),
{
    if s.len() > 0 && conn.spec_connected(prev, key.spec_key(s[0])) {
        let d = s.drop_first();
        lemma_run_adjacent(key, conn, key.spec_key(s[0]), d);
        lemma_run_len_le(key, conn, prev, s);
        assert forall|j: int| 1 <= j < run_len(key, conn, prev, s) implies #[trigger] conn.spec_connected(
            key.spec_key(s[j - 1]),
            key.spec_key(s[j]),
        ) by {
            assert(run_len(key, conn, prev, s) == run_len(key, conn, key.spec_key(s[0]), d) + 1);
            if j == 1 {
                assert(conn.spec_connected(key.spec_key(s[0]), key.spec_key(d[0])));
                assert(d[0] == s[1]);
            } else {
                let k0 = j - 1;
                assert(conn.spec_connected(key.spec_key(d[k0 - 1]), key.spec_key(d[k0])));
                assert(d[k0 - 1] == s[j - 1]);
                assert(d[k0] == s[j]);
            }
        }
    }
}

/// Where a run stops short of the end of `s`, the key just past the run is
/// not adjacent to the last key of the run.
proof fn lemma_run_boundary<T, C, K: KeyFn<T, C>, F: Adjacency<C>>(
    key: K,
    conn: F,
    prev: C,
    s: Seq<T>,
)
    ensures
        run_len(key, conn, prev, s) < s.len() ==> !conn.spec_connected(
            if run_len(key, conn, prev, s) == 0 {
                prev
            } else {
                key.spec_key(s[run_len(key, conn, prev, s) - 1])
            },
            key.spec_key(s[run_len(key, conn, prev, s) as int]),
        ),
    decreases s.len(),
{
    if s.len() > 0 && conn.spec_connected(prev, key.spec_key(s[0])) {
        lemma_run_boundary(key, conn, key.spec_key(s[0]), s.drop_first());
    }
}

/// Internal adjacency law: within every span, every pair of neighbouring
/// items has adjacent keys.
pub proof fn lemma_spans_adjacent<T, C, K: KeyFn<T, C>, F: Adjacency<C>>(
    key: K,
    conn: F,
    s: Seq<T>,
)
    ensures
        forall|i: int, j: int|
            0 <= i < spec_spans(key, conn, s).len() && 0 <= j < spec_spans(key, conn, s)[i].len()
                - 1 ==> #[trigger] conn.spec_connected(
                key.spec_key(spec_spans(key, conn, s)[i][j]),
                key.spec_key(spec_spans(key, conn, s)[i][j + 1]),
            ),
    decreases s.len(),
{
    if s.len() > 0 {
        lemma_run_len_le(key, conn, key.spec_key(s[0]), s.drop_first());
        let n = first_span_len(key, conn, s) as int;
        lemma_spans_adjacent(key, conn, s.skip(n));
        lemma_run_adjacent(key, conn, key.spec_key(s[0]), s.drop_first());
        let ss = spec_spans(key, conn, s);
        assert forall|i: int, j: int| 0 <= i < ss.len() && 0 <= j < ss[i].len() - 1 implies #[trigger] conn.spec_connected(
            key.spec_key(ss[i][j]),
            key.spec_key(ss[i][j + 1]),
        ) by {
            if i == 0 {
                assert(ss[0] == s.take(n));
                if j == 0 {
                    assert(conn.spec_connected(key.spec_key(s[0]), key.spec_key(
                        s.drop_first()[0],
                    )));
                } else {
                    assert(conn.spec_connected(
                        key.spec_key(s.drop_first()[j - 1]),
                        key.spec_key(s.drop_first()[j]),
                    ));
                }
                assert(s.drop_first()[j] == s[j + 1]);
            } else {
                assert(ss[i] == spec_spans(key, conn, s.skip(n))[i - 1]);
            }
        }
    }
}

/// Boundary law: between one span and the next, the last key of the former
/// and the first key of the latter are not adjacent — this is what makes
/// every span maximal.
pub proof fn lemma_spans_boundary<T, C, K: KeyFn<T, C>, F: Adjacency<C>>(
    key: K,
    conn: F,
    s: Seq<T>,
)
    ensures
        forall|i: int|
            0 <= i < spec_spans(key, conn, s).len() - 1 ==> !(#[trigger] conn.spec_connected(
                key.spec_key(spec_spans(key, conn, s)[i].last()),
                key.spec_key(spec_spans(key, conn, s)[i + 1].first()),
            )),
    decreases s.len(),
{
    if s.len() > 0 {
        lemma_run_len_le(key, conn, key.spec_key(s[0]), s.drop_first());
        let n = first_span_len(key, conn, s) as int;
        lemma_spans_boundary(key, conn, s.skip(n));
        lemma_run_boundary(key, conn, key.spec_key(s[0]), s.drop_first());
        let ss = spec_spans(key, conn, s);
        let rest = spec_spans(key, conn, s.skip(n));
        assert forall|i: int| 0 <= i < ss.len() - 1 implies !(#[trigger] conn.spec_connected(
            key.spec_key(ss[i].last()),
            key.spec_key(ss[i + 1].first()),
        )) by {
            if i == 0 {
                assert(ss[0] == s.take(n));
                assert(ss[0].last() == s[n - 1]);
                assert(rest.len() > 0);
                assert(s.skip(n).len() > 0);
                lemma_run_len_le(key, conn, key.spec_key(s.skip(n)[0]), s.skip(n).drop_first());
                assert(rest[0] == s.skip(n).take(first_span_len(key, conn, s.skip(n)) as int));
                assert(ss[1] == rest[0]);
                assert(first_span_len(key, conn, s.skip(n)) >= 1);
                assert(ss[1].first() == s.skip(n)[0]);
                assert(s.skip(n)[0] == s[n]);
                assert(run_len(key, conn, key.spec_key(s[0]), s.drop_first()) == n - 1);
                if n == 1 {
                    assert(!conn.spec_connected(key.spec_key(s[0]), key.spec_key(
                        s.drop_first()[0],
                    )));
                } else {
                    assert(!conn.spec_connected(
                        key.spec_key(s.drop_first()[n - 2]),
                        key.spec_key(s.drop_first()[n - 1]),
                    ));
                }
                assert(s.drop_first()[n - 1] == s[n]);
            } else {
                let k0 = i - 1;
                assert(ss[i] == rest[k0]);
                assert(ss[i + 1] == rest[k0 + 1]);
                assert(!conn.spec_connected(
                    key.spec_key(rest[k0].last()),
                    key.spec_key(rest[k0 + 1].first()),
                ));
            }
        }
    }
}

} // verus!
