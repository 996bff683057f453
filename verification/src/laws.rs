//! General properties of the write operators, stated and proved once
//! over every value domain.
//!
//! The per-call contracts of `max` and `min` say that each call stores
//! the larger (smaller) of the previous value and the argument, with
//! the domain zero standing in for an absent key.  The lemmas here close
//! the loop over a whole run: after any sequence of values the stored
//! value is exactly the maximum (minimum) of the domain zero and all
//! values seen, which is what the folds below compute.

use vstd::prelude::*;
use crate::numeric::Numeric;
use crate::store::add_outcome;
use crate::store::single_entry;
use crate::traits::EncodingError;
use crate::traits::FromBytes;
use crate::traits::ToBytes;

verus! {

/// The value kept by a run of keep-maximum writes: the fold of the
/// strict order over the domain zero and the values, in order.
pub open spec fn max_fold<T: Numeric>(vs: Seq<T::V>) -> T::V
    decreases vs.len(),
{
    if vs.len() == 0 {
        T::zero_spec()
    } else {
        let m = max_fold::<T>(vs.drop_last());
        if T::lt_spec(m, vs.last()) {
            vs.last()
        } else {
            m
        }
    }
}

/// The value kept by a run of keep-minimum writes.
pub open spec fn min_fold<T: Numeric>(vs: Seq<T::V>) -> T::V
    decreases vs.len(),
{
    if vs.len() == 0 {
        T::zero_spec()
    } else {
        let m = min_fold::<T>(vs.drop_last());
        if T::lt_spec(vs.last(), m) {
            vs.last()
        } else {
            m
        }
    }
}

/// After applying keep-maximum with the values `vs`, the kept value is
/// the maximum of the domain zero and all of `vs`: no value seen
/// exceeds it, the zero does not exceed it, and it is the zero or one
/// of the values.
pub proof fn lemma_max_fold_is_max<T: Numeric>(vs: Seq<T::V>)
    ensures
        !T::lt_spec(max_fold::<T>(vs), T::zero_spec()),
        forall|i: int| 0 <= i < vs.len() ==> !T::lt_spec(max_fold::<T>(vs), #[trigger] vs[i]),
        max_fold::<T>(vs) == T::zero_spec() || exists|i: int|
            0 <= i < vs.len() && max_fold::<T>(vs) == vs[i],
    decreases vs.len(),
{
    if vs.len() == 0 {
        T::lemma_strict_order(T::zero_spec(), T::zero_spec(), T::zero_spec());
    } else {
        let pre = vs.drop_last();
        let m = max_fold::<T>(pre);
        let m2 = max_fold::<T>(vs);
        lemma_max_fold_is_max::<T>(pre);
        assert(forall|i: int| 0 <= i < pre.len() ==> pre[i] == #[trigger] vs[i]);
        if T::lt_spec(m, vs.last()) {
            assert(m2 == vs.last());
            assert forall|i: int| 0 <= i < vs.len() implies !T::lt_spec(m2, #[trigger] vs[i]) by {
                if i < vs.len() - 1 {
                    assert(vs[i] == pre[i]);
                    assert(!T::lt_spec(m, pre[i]));
                    T::lemma_strict_order(m, vs.last(), vs[i]);
                } else {
                    T::lemma_strict_order(vs.last(), vs.last(), vs.last());
                }
            }
            T::lemma_strict_order(m, vs.last(), T::zero_spec());
            assert(m2 == vs[vs.len() - 1]);
        } else {
            assert(m2 == m);
            if m == T::zero_spec() {
            } else {
                let i = choose|i: int| 0 <= i < pre.len() && m == pre[i];
                assert(m2 == vs[i]);
            }
        }
    }
}

/// After applying keep-minimum with the values `vs`, the kept value is
/// the minimum of the domain zero and all of `vs`.
pub proof fn lemma_min_fold_is_min<T: Numeric>(vs: Seq<T::V>)
    ensures
        !T::lt_spec(T::zero_spec(), min_fold::<T>(vs)),
        forall|i: int| 0 <= i < vs.len() ==> !T::lt_spec(#[trigger] vs[i], min_fold::<T>(vs)),
        min_fold::<T>(vs) == T::zero_spec() || exists|i: int|
            0 <= i < vs.len() && min_fold::<T>(vs) == vs[i],
    decreases vs.len(),
{
    if vs.len() == 0 {
        T::lemma_strict_order(T::zero_spec(), T::zero_spec(), T::zero_spec());
    } else {
        let pre = vs.drop_last();
        let m = min_fold::<T>(pre);
        let m2 = min_fold::<T>(vs);
        lemma_min_fold_is_min::<T>(pre);
        assert(forall|i: int| 0 <= i < pre.len() ==> pre[i] == #[trigger] vs[i]);
        if T::lt_spec(vs.last(), m) {
            assert(m2 == vs.last());
            assert forall|i: int| 0 <= i < vs.len() implies !T::lt_spec(#[trigger] vs[i], m2) by {
                if i < vs.len() - 1 {
                    assert(vs[i] == pre[i]);
                    assert(!T::lt_spec(pre[i], m));
                    T::lemma_strict_order(vs[i], vs.last(), m);
                } else {
                    T::lemma_strict_order(vs.last(), vs.last(), vs.last());
                }
            }
            T::lemma_strict_order(T::zero_spec(), vs.last(), m);
            assert(m2 == vs[vs.len() - 1]);
        } else {
            assert(m2 == m);
            if m == T::zero_spec() {
            } else {
                let i = choose|i: int| 0 <= i < pre.len() && m == pre[i];
                assert(m2 == vs[i]);
            }
        }
    }
}

/// What one successful keep-maximum write does to the store map.
pub open spec fn max_step<T: Numeric>(
    m: Map<Seq<char>, Seq<(u64, Seq<u8>)>>,
    ord: u64,
    k: Seq<char>,
    v: T::V,
) -> Map<Seq<char>, Seq<(u64, Seq<u8>)>> {
    if !m.contains_key(k) {
        m.insert(
            k,
            single_entry(
                ord,
                T::encoded_of(
                    if T::lt_spec(T::zero_spec(), v) {
                        v
                    } else {
                        T::zero_spec()
                    },
                ),
            ),
        )
    } else {
        match T::decoded(m[k].last().1) {
            Ok(p) => if T::lt_spec(p, v) {
                m.insert(k, m[k].push((ord, T::encoded_of(v))))
            } else {
                m
            },
            Err(_) => m,
        }
    }
}

/// What one successful keep-minimum write does to the store map.
pub open spec fn min_step<T: Numeric>(
    m: Map<Seq<char>, Seq<(u64, Seq<u8>)>>,
    ord: u64,
    k: Seq<char>,
    v: T::V,
) -> Map<Seq<char>, Seq<(u64, Seq<u8>)>> {
    if !m.contains_key(k) {
        m.insert(
            k,
            single_entry(
                ord,
                T::encoded_of(
                    if T::lt_spec(v, T::zero_spec()) {
                        v
                    } else {
                        T::zero_spec()
                    },
                ),
            ),
        )
    } else {
        match T::decoded(m[k].last().1) {
            Ok(p) => if T::lt_spec(v, p) {
                m.insert(k, m[k].push((ord, T::encoded_of(v))))
            } else {
                m
            },
            Err(_) => m,
        }
    }
}

/// The store map after a run of keep-maximum writes of `writes` (pairs
/// of ordinal and value) to the key `k`.
pub open spec fn max_chain<T: Numeric>(
    m0: Map<Seq<char>, Seq<(u64, Seq<u8>)>>,
    k: Seq<char>,
    writes: Seq<(u64, T::V)>,
) -> Map<Seq<char>, Seq<(u64, Seq<u8>)>>
    decreases writes.len(),
{
    if writes.len() == 0 {
        m0
    } else {
        max_step::<T>(
            max_chain::<T>(m0, k, writes.drop_last()),
            writes.last().0,
            k,
            writes.last().1,
        )
    }
}

/// The store map after a run of keep-minimum writes.
pub open spec fn min_chain<T: Numeric>(
    m0: Map<Seq<char>, Seq<(u64, Seq<u8>)>>,
    k: Seq<char>,
    writes: Seq<(u64, T::V)>,
) -> Map<Seq<char>, Seq<(u64, Seq<u8>)>>
    decreases writes.len(),
{
    if writes.len() == 0 {
        m0
    } else {
        min_step::<T>(
            min_chain::<T>(m0, k, writes.drop_last()),
            writes.last().0,
            k,
            writes.last().1,
        )
    }
}

/// Keep-maximum is monotonic over a whole run: starting from a store
/// without the key, after any sequence of keep-maximum writes the
/// stored value decodes to the maximum of the domain zero and all the
/// values written.
pub proof fn lemma_max_chain_is_max<T: Numeric>(
    m0: Map<Seq<char>, Seq<(u64, Seq<u8>)>>,
    k: Seq<char>,
    writes: Seq<(u64, T::V)>,
)
    requires
        !m0.contains_key(k),
        writes.len() > 0,
        forall|i: int| 0 <= i < writes.len() ==> T::vinv((#[trigger] writes[i]).1),
    ensures
        max_chain::<T>(m0, k, writes).contains_key(k),
        T::decoded(max_chain::<T>(m0, k, writes)[k].last().1) == Ok::<T::V, EncodingError>(
            max_fold::<T>(Seq::new(writes.len(), |i: int| writes[i].1)),
        ),
    decreases writes.len(),
{
    let vs = Seq::new(writes.len(), |i: int| writes[i].1);
    let v = writes.last().1;
    if writes.len() == 1 {
        let w = (if T::lt_spec(T::zero_spec(), v) {
            v
        } else {
            T::zero_spec()
        });
        T::lemma_zero_vinv();
        T::lemma_encode_decodes(w);
        assert(vs.drop_last() =~= Seq::<T::V>::empty());
        assert(vs.last() == v);
        assert(max_fold::<T>(Seq::<T::V>::empty()) == T::zero_spec());
        assert(max_fold::<T>(vs.drop_last()) == T::zero_spec());
        assert(max_fold::<T>(vs) == w);
    } else {
        let pre = writes.drop_last();
        let vs_pre = Seq::new(pre.len(), |i: int| pre[i].1);
        assert(forall|i: int| 0 <= i < pre.len() ==> (#[trigger] pre[i]) == writes[i]);
        lemma_max_chain_is_max::<T>(m0, k, pre);
        let m_pre = max_chain::<T>(m0, k, pre);
        let p = max_fold::<T>(vs_pre);
        assert(vs.drop_last() =~= vs_pre);
        if T::lt_spec(p, v) {
            T::lemma_encode_decodes(v);
            assert(max_fold::<T>(vs) == v);
        } else {
            assert(max_fold::<T>(vs) == p);
        }
    }
}

/// Keep-minimum is monotonic over a whole run, symmetrically.
pub proof fn lemma_min_chain_is_min<T: Numeric>(
    m0: Map<Seq<char>, Seq<(u64, Seq<u8>)>>,
    k: Seq<char>,
    writes: Seq<(u64, T::V)>,
)
    requires
        !m0.contains_key(k),
        writes.len() > 0,
        forall|i: int| 0 <= i < writes.len() ==> T::vinv((#[trigger] writes[i]).1),
    ensures
        min_chain::<T>(m0, k, writes).contains_key(k),
        T::decoded(min_chain::<T>(m0, k, writes)[k].last().1) == Ok::<T::V, EncodingError>(
            min_fold::<T>(Seq::new(writes.len(), |i: int| writes[i].1)),
        ),
    decreases writes.len(),
{
    let vs = Seq::new(writes.len(), |i: int| writes[i].1);
    let v = writes.last().1;
    if writes.len() == 1 {
        let w = (if T::lt_spec(v, T::zero_spec()) {
            v
        } else {
            T::zero_spec()
        });
        T::lemma_zero_vinv();
        T::lemma_encode_decodes(w);
        assert(vs.drop_last() =~= Seq::<T::V>::empty());
        assert(vs.last() == v);
        assert(min_fold::<T>(Seq::<T::V>::empty()) == T::zero_spec());
        assert(min_fold::<T>(vs.drop_last()) == T::zero_spec());
        assert(min_fold::<T>(vs) == w);
    } else {
        let pre = writes.drop_last();
        let vs_pre = Seq::new(pre.len(), |i: int| pre[i].1);
        assert(forall|i: int| 0 <= i < pre.len() ==> (#[trigger] pre[i]) == writes[i]);
        lemma_min_chain_is_min::<T>(m0, k, pre);
        let m_pre = min_chain::<T>(m0, k, pre);
        let p = min_fold::<T>(vs_pre);
        assert(vs.drop_last() =~= vs_pre);
        if T::lt_spec(v, p) {
            T::lemma_encode_decodes(v);
            assert(min_fold::<T>(vs) == v);
        } else {
            assert(min_fold::<T>(vs) == p);
        }
    }
}

/// The running sum of a nonempty sequence of values: the first value,
/// then each later one added in order.
pub open spec fn add_fold<T: Numeric>(vs: Seq<T::V>) -> T::V
    recommends
        vs.len() > 0,
    decreases vs.len(),
{
    if vs.len() <= 1 {
        vs[0]
    } else {
        T::add_spec(add_fold::<T>(vs.drop_last()), vs.last())
    }
}

/// The store map after a run of accumulating writes of `writes` (pairs
/// of ordinal and value) to the key `k`.
pub open spec fn add_chain<T: Numeric>(
    m0: Map<Seq<char>, Seq<(u64, Seq<u8>)>>,
    k: Seq<char>,
    writes: Seq<(u64, T::V)>,
) -> Map<Seq<char>, Seq<(u64, Seq<u8>)>>
    decreases writes.len(),
{
    if writes.len() == 0 {
        m0
    } else {
        add_outcome::<T>(
            add_chain::<T>(m0, k, writes.drop_last()),
            writes.last().0,
            k,
            writes.last().1,
        ).0
    }
}

/// Accumulation over a whole run: starting from a store without the
/// key, after any sequence of accumulating writes the stored value
/// decodes to the running sum of the values written, and no write in
/// the run fails.
pub proof fn lemma_add_chain_accumulates<T: Numeric>(
    m0: Map<Seq<char>, Seq<(u64, Seq<u8>)>>,
    k: Seq<char>,
    writes: Seq<(u64, T::V)>,
)
    requires
        !m0.contains_key(k),
        writes.len() > 0,
        forall|i: int| 0 <= i < writes.len() ==> T::vinv((#[trigger] writes[i]).1),
    ensures
        ({
            let m = add_chain::<T>(m0, k, writes);
            let vs = Seq::new(writes.len(), |i: int| writes[i].1);
            &&& m.contains_key(k)
            &&& T::vinv(add_fold::<T>(vs))
            &&& T::decoded(m[k].last().1) == Ok::<T::V, EncodingError>(add_fold::<T>(vs))
            &&& add_outcome::<T>(
                add_chain::<T>(m0, k, writes.drop_last()),
                writes.last().0,
                k,
                writes.last().1,
            ).1 is Ok
        }),
    decreases writes.len(),
{
    let vs = Seq::new(writes.len(), |i: int| writes[i].1);
    let v = writes.last().1;
    if writes.len() == 1 {
        T::lemma_encode_decodes(v);
        assert(vs[0] == v);
        assert(add_fold::<T>(vs) == v);
    } else {
        let pre = writes.drop_last();
        let vs_pre = Seq::new(pre.len(), |i: int| pre[i].1);
        assert(forall|i: int| 0 <= i < pre.len() ==> (#[trigger] pre[i]) == writes[i]);
        lemma_add_chain_accumulates::<T>(m0, k, pre);
        let p = add_fold::<T>(vs_pre);
        assert(vs.drop_last() =~= vs_pre);
        assert(add_fold::<T>(vs) == T::add_spec(p, v));
        T::lemma_add_vinv(p, v);
        T::lemma_encode_decodes(T::add_spec(p, v));
    }
}

} // verus!
