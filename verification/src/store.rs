//! The typed write operators and read capabilities over the versioned
//! table.
//!
//! [`MockStore`] exposes the store to a handler: typed point/last/first
//! reads, existence checks, and the write operators — replace
//! (`set`), replace-if-absent (`set_if_not_exists`), accumulate (`add`),
//! keep-maximum (`max`), keep-minimum (`min`), append (`append`) and
//! prefix delete.

use vstd::prelude::*;
use vstd::pervasive::unreached;
use vstd::string::StrSliceExecFns;
use vstd::utf8::encode_utf8;
use crate::numeric::Numeric;
use crate::table::first_at;
use crate::table::has_ordinal;
use crate::table::is_char_prefix;
use crate::table::VersionedTable;
use crate::traits::EncodingError;
use crate::traits::FromBytes;
use crate::traits::FromBytesProto;
use crate::traits::ToBytes;
use crate::traits::ToBytesProto;

verus! {

/// The single-ordinal history written by a replacing operator.
pub open spec fn single_entry(ord: u64, bytes: Seq<u8>) -> Seq<(u64, Seq<u8>)> {
    seq![(ord, bytes)]
}

/// The bytes one append contributes: the element's UTF-8 text followed
/// by the ASCII semicolon delimiter.
pub open spec fn delimited(item: Seq<char>) -> Seq<u8> {
    encode_utf8(item) + seq![59u8]
}

/// The bytes a whole sequence of appends contributes, in order.
pub open spec fn delimited_all(items: Seq<Seq<char>>) -> Seq<u8>
    decreases items.len(),
{
    if items.len() == 0 {
        Seq::empty()
    } else {
        delimited_all(items.drop_last()) + delimited(items.last())
    }
}

/// The store map after a run of appends of `items` to `key` at `ord`,
/// starting from `pre`.
pub open spec fn append_shape(
    pre: Map<Seq<char>, Seq<(u64, Seq<u8>)>>,
    k: Seq<char>,
    ord: u64,
    items: Seq<Seq<char>>,
) -> Map<Seq<char>, Seq<(u64, Seq<u8>)>> {
    if items.len() == 0 {
        pre
    } else if pre.contains_key(k) {
        pre.insert(k, pre[k].update(0, (ord, pre[k][0].1 + delimited_all(items))))
    } else {
        pre.insert(k, single_entry(ord, delimited_all(items)))
    }
}

/// One more append extends the run: applying the single-append
/// transformation to `append_shape(pre, k, ord, items)` yields
/// `append_shape(pre, k, ord, items.push(x))`.
proof fn lemma_append_shape_step(
    pre: Map<Seq<char>, Seq<(u64, Seq<u8>)>>,
    k: Seq<char>,
    ord: u64,
    items: Seq<Seq<char>>,
    x: Seq<char>,
)
    requires
        pre.contains_key(k) ==> pre[k].len() > 0,
    ensures
        ({
            let cur = append_shape(pre, k, ord, items);
            let nxt = append_shape(pre, k, ord, items.push(x));
            if cur.contains_key(k) {
                nxt == cur.insert(k, cur[k].update(0, (ord, cur[k][0].1 + delimited(x))))
            } else {
                nxt == cur.insert(k, single_entry(ord, delimited(x)))
            }
        }),
{
    let cur = append_shape(pre, k, ord, items);
    let nxt = append_shape(pre, k, ord, items.push(x));
    let more = items.push(x);
    assert(more.drop_last() =~= items);
    assert(more.last() == x);
    assert(delimited_all(more) == delimited_all(items) + delimited(x));
    if items.len() == 0 {
        if pre.contains_key(k) {
            assert(pre[k][0].1 + (delimited_all(items) + delimited(x)) =~= pre[k][0].1
                + delimited(x));
            assert(nxt =~= cur.insert(k, cur[k].update(0, (ord, cur[k][0].1 + delimited(x)))));
        } else {
            assert(delimited_all(items) + delimited(x) =~= delimited(x));
            assert(nxt =~= cur.insert(k, single_entry(ord, delimited(x))));
        }
    } else {
        assert(cur.contains_key(k));
        if pre.contains_key(k) {
            assert(cur[k][0].1 == pre[k][0].1 + delimited_all(items));
            assert(pre[k][0].1 + (delimited_all(items) + delimited(x)) =~= (pre[k][0].1
                + delimited_all(items)) + delimited(x));
            assert(pre[k].update(0, (ord, pre[k][0].1 + delimited_all(more))) =~= cur[k].update(
                0,
                (ord, cur[k][0].1 + delimited(x)),
            ));
            assert(nxt =~= cur.insert(k, cur[k].update(0, (ord, cur[k][0].1 + delimited(x)))));
        } else {
            assert(cur[k][0].1 == delimited_all(items));
            assert(delimited_all(items) + delimited(x) =~= cur[k][0].1 + delimited(x));
            assert(single_entry(ord, delimited_all(more)) =~= cur[k].update(
                0,
                (ord, cur[k][0].1 + delimited(x)),
            ));
            assert(nxt =~= cur.insert(k, cur[k].update(0, (ord, cur[k][0].1 + delimited(x)))));
        }
    }
}

/// The store map after setting every key of `ks`, in order, to the
/// same encoded value at `ord`: each key gets one more entry (its
/// first, when the key is new).
pub open spec fn set_all_map(
    pre: Map<Seq<char>, Seq<(u64, Seq<u8>)>>,
    ord: u64,
    ks: Seq<Seq<char>>,
    bytes: Seq<u8>,
) -> Map<Seq<char>, Seq<(u64, Seq<u8>)>>
    decreases ks.len(),
{
    if ks.len() == 0 {
        pre
    } else {
        let m = set_all_map(pre, ord, ks.drop_last(), bytes);
        if m.contains_key(ks.last()) {
            m.insert(ks.last(), m[ks.last()].push((ord, bytes)))
        } else {
            m.insert(ks.last(), single_entry(ord, bytes))
        }
    }
}

/// The store map and the reported result after one accumulate of `v`
/// into `k` at `ord`: the sum of the decoded prior (or the domain zero
/// when `k` is absent) and `v` is appended, unless the prior bytes fail
/// to decode, which aborts the write.
pub open spec fn add_outcome<T: Numeric>(
    pre: Map<Seq<char>, Seq<(u64, Seq<u8>)>>,
    ord: u64,
    k: Seq<char>,
    v: T::V,
) -> (Map<Seq<char>, Seq<(u64, Seq<u8>)>>, Result<(), EncodingError>) {
    if !pre.contains_key(k) {
        (pre.insert(k, single_entry(ord, T::encoded_of(v))), Ok(()))
    } else {
        match T::decoded(pre[k].last().1) {
            Ok(p) => (pre.insert(k, pre[k].push((ord, T::encoded_of(T::add_spec(p, v))))), Ok(())),
            Err(e) => (pre, Err(e)),
        }
    }
}

/// The store map and result after accumulating `v` into every key of
/// `ks`, in order, stopping at the first decode failure.
pub open spec fn add_all_outcome<T: Numeric>(
    pre: Map<Seq<char>, Seq<(u64, Seq<u8>)>>,
    ord: u64,
    ks: Seq<Seq<char>>,
    v: T::V,
) -> (Map<Seq<char>, Seq<(u64, Seq<u8>)>>, Result<(), EncodingError>)
    decreases ks.len(),
{
    if ks.len() == 0 {
        (pre, Ok(()))
    } else {
        let prev = add_all_outcome::<T>(pre, ord, ks.drop_last(), v);
        if prev.1 is Err {
            prev
        } else {
            add_outcome::<T>(prev.0, ord, ks.last(), v)
        }
    }
}

/// A failed accumulate run absorbs the remaining keys: once some step
/// has reported an error, the outcome for any longer prefix is the same.
proof fn lemma_add_all_outcome_err<T: Numeric>(
    pre: Map<Seq<char>, Seq<(u64, Seq<u8>)>>,
    ord: u64,
    ks: Seq<Seq<char>>,
    i: int,
    v: T::V,
)
    requires
        0 <= i <= ks.len(),
        add_all_outcome::<T>(pre, ord, ks.subrange(0, i), v).1 is Err,
    ensures
        add_all_outcome::<T>(pre, ord, ks.subrange(0, ks.len() as int), v) == add_all_outcome::<T>(
            pre,
            ord,
            ks.subrange(0, i),
            v,
        ),
    decreases ks.len() - i,
{
    if i < ks.len() {
        assert(ks.subrange(0, i + 1).drop_last() =~= ks.subrange(0, i));
        assert(add_all_outcome::<T>(pre, ord, ks.subrange(0, i + 1), v) == add_all_outcome::<T>(
            pre,
            ord,
            ks.subrange(0, i),
            v,
        ));
        lemma_add_all_outcome_err::<T>(pre, ord, ks, i + 1, v);
    }
}

/// A deterministic, ordinal-indexed, multi-version key-value store.
///
/// One replay session owns one `MockStore`; exclusive mutation is
/// enforced statically by the `&mut` receivers of the write operators.
pub struct MockStore {
    table: VersionedTable,
}

impl View for MockStore {
    type V = Map<Seq<char>, Seq<(u64, Seq<u8>)>>;

    closed spec fn view(&self) -> Map<Seq<char>, Seq<(u64, Seq<u8>)>> {
        self.table@
    }
}

impl MockStore {
    pub closed spec fn wf(&self) -> bool {
        self.table.wf()
    }

    pub fn new() -> (r: Self)
        ensures
            r.wf(),
            r@ == Map::<Seq<char>, Seq<(u64, Seq<u8>)>>::empty(),
    {
        MockStore { table: VersionedTable::new() }
    }

    /// Typed point read: the value recorded for `key` exactly at `ord`.
    pub fn get_at<T: FromBytes>(&self, ord: u64, key: &str) -> (r: Result<
        Option<T>,
        EncodingError,
    >)
        requires
            self.wf(),
        ensures
            (match r {
                Ok(Some(v)) => {
                    &&& self@.contains_key(key@)
                    &&& first_at(self@[key@], ord) matches Some(b) && T::decoded(b) == Ok::<
                        T::V,
                        EncodingError,
                    >(v@)
                    &&& v.inv()
                },
                Ok(None) => !self@.contains_key(key@) || first_at(self@[key@], ord) is None,
                Err(e) => {
                    &&& self@.contains_key(key@)
                    &&& first_at(self@[key@], ord) matches Some(b) && T::decoded(b) == Err::<
                        T::V,
                        EncodingError,
                    >(e)
                },
            }),
    {
        match self.table.get_at(ord, key) {
            Some(b) => match T::from_bytes(b.as_slice()) {
                Ok(v) => Ok(Some(v)),
                Err(e) => Err(e),
            },
            None => Ok(None),
        }
    }

    /// Typed read of the most recent value of `key`.
    pub fn get_last<T: FromBytes>(&self, key: &str) -> (r: Result<Option<T>, EncodingError>)
        requires
            self.wf(),
        ensures
            (match r {
                Ok(Some(v)) => {
                    &&& self@.contains_key(key@)
                    &&& T::decoded(self@[key@].last().1) == Ok::<T::V, EncodingError>(v@)
                    &&& v.inv()
                },
                Ok(None) => !self@.contains_key(key@),
                Err(e) => self@.contains_key(key@) && T::decoded(self@[key@].last().1) == Err::<
                    T::V,
                    EncodingError,
                >(e),
            }),
    {
        match self.table.get_last(key) {
            Some(b) => match T::from_bytes(b.as_slice()) {
                Ok(v) => Ok(Some(v)),
                Err(e) => Err(e),
            },
            None => Ok(None),
        }
    }

    /// Typed read of the earliest value of `key`.
    pub fn get_first<T: FromBytes>(&self, key: &str) -> (r: Result<Option<T>, EncodingError>)
        requires
            self.wf(),
        ensures
            (match r {
                Ok(Some(v)) => {
                    &&& self@.contains_key(key@)
                    &&& T::decoded(self@[key@][0].1) == Ok::<T::V, EncodingError>(v@)
                    &&& v.inv()
                },
                Ok(None) => !self@.contains_key(key@),
                Err(e) => self@.contains_key(key@) && T::decoded(self@[key@][0].1) == Err::<
                    T::V,
                    EncodingError,
                >(e),
            }),
    {
        match self.table.get_first(key) {
            Some(b) => match T::from_bytes(b.as_slice()) {
                Ok(v) => Ok(Some(v)),
                Err(e) => Err(e),
            },
            None => Ok(None),
        }
    }

    /// True exactly when some write recorded the ordinal `ord` for `key`.
    pub fn has_at(&self, ord: u64, key: &str) -> (r: bool)
        requires
            self.wf(),
        ensures
            r == (self@.contains_key(key@) && has_ordinal(self@[key@], ord)),
    {
        self.table.has_at(ord, key)
    }

    /// True when `key` has any history; never decodes.
    pub fn has_last(&self, key: &str) -> (r: bool)
        requires
            self.wf(),
        ensures
            r == self@.contains_key(key@),
    {
        self.table.has_key(key)
    }

    /// True when `key` has any history; never decodes.
    pub fn has_first(&self, key: &str) -> (r: bool)
        requires
            self.wf(),
        ensures
            r == self@.contains_key(key@),
    {
        self.table.has_key(key)
    }

    /// Set `key` to `value`: the stored value is replaced outright (no
    /// merging with the previous one), while the ordinal-tagged history
    /// keeps every earlier entry readable by its exact ordinal.
    pub fn set<T: ToBytes>(&mut self, ord: u64, key: &str, value: &T)
        requires
            old(self).wf(),
            value.inv(),
        ensures
            final(self).wf(),
            final(self)@ == (if old(self)@.contains_key(key@) {
                old(self)@.insert(
                    key@,
                    old(self)@[key@].push((ord, T::encoded_of(value@))),
                )
            } else {
                old(self)@.insert(key@, single_entry(ord, T::encoded_of(value@)))
            }),
            T::decoded(T::encoded_of(value@)) == Ok::<T::V, EncodingError>(value@),
    {
        let b = value.to_bytes();
        self.table.append(ord, key, b);
    }

    /// Set every key of `keys` to `value`, each as `set` does.
    #[verifier::loop_isolation(false)]
    pub fn set_many<T: ToBytes>(&mut self, ord: u64, keys: &Vec<String>, value: &T)
        requires
            old(self).wf(),
            value.inv(),
        ensures
            final(self).wf(),
            final(self)@ == set_all_map(
                old(self)@,
                ord,
                Seq::new(keys@.len(), |i: int| keys@[i]@),
                T::encoded_of(value@),
            ),
            T::decoded(T::encoded_of(value@)) == Ok::<T::V, EncodingError>(value@),
    {
        let ghost ks = Seq::new(keys@.len(), |i: int| keys@[i]@);
        let b = value.to_bytes();
        let n = keys.len();
        let mut i: usize = 0;
        while i < n
            invariant
                0 <= i <= n,
                self.wf(),
                self@ == set_all_map(old(self)@, ord, ks.subrange(0, i as int), b@),
            decreases n - i,
        {
            let ghost pre = self@;
            let bi = vstd::slice::slice_to_vec(b.as_slice());
            self.table.append(ord, keys[i].as_str(), bi);
            proof {
                let full = ks.subrange(0, i + 1);
                assert(full.drop_last() =~= ks.subrange(0, i as int));
                assert(full.last() == keys@[i as int]@);
                assert(set_all_map(old(self)@, ord, full, b@) == (if pre.contains_key(
                    keys@[i as int]@,
                ) {
                    pre.insert(
                        keys@[i as int]@,
                        pre[keys@[i as int]@].push((ord, b@)),
                    )
                } else {
                    pre.insert(keys@[i as int]@, single_entry(ord, b@))
                }));
            }
            i += 1;
        }
        proof {
            assert(ks.subrange(0, n as int) =~= ks);
        }
    }

    /// Set `key` to `value` only when the key has no history; an existing
    /// value, whatever it is, is retained.
    pub fn set_if_not_exists<T: ToBytes>(&mut self, ord: u64, key: &str, value: &T)
        requires
            old(self).wf(),
            value.inv(),
        ensures
            final(self).wf(),
            final(self)@ == (if old(self)@.contains_key(key@) {
                old(self)@
            } else {
                old(self)@.insert(key@, single_entry(ord, T::encoded_of(value@)))
            }),
            T::decoded(T::encoded_of(value@)) == Ok::<T::V, EncodingError>(value@),
    {
        let present = self.table.has_key(key);
        let b = value.to_bytes();
        if !present {
            self.table.replace_or_create(ord, key, b);
        }
    }

    /// Apply `set_if_not_exists` to every key of `keys`, in order.
    #[verifier::loop_isolation(false)]
    pub fn set_if_not_exists_many<T: ToBytes>(&mut self, ord: u64, keys: &Vec<String>, value: &T)
        requires
            old(self).wf(),
            value.inv(),
        ensures
            final(self).wf(),
            forall|i: int|
                0 <= i < keys@.len() ==> final(self)@.contains_key(#[trigger] keys@[i]@) && (if old(
                    self,
                )@.contains_key(keys@[i]@) {
                    final(self)@[keys@[i]@] == old(self)@[keys@[i]@]
                } else {
                    final(self)@[keys@[i]@] == single_entry(ord, T::encoded_of(value@))
                }),
            forall|k: Seq<char>|
                #![trigger final(self)@.contains_key(k)]
                !(exists|i: int| 0 <= i < keys@.len() && #[trigger] keys@[i]@ == k) ==> {
                    &&& (final(self)@.contains_key(k) <==> old(self)@.contains_key(k))
                    &&& (final(self)@.contains_key(k) ==> final(self)@[k] == old(self)@[k])
                },
            T::decoded(T::encoded_of(value@)) == Ok::<T::V, EncodingError>(value@),
    {
        let b = value.to_bytes();
        let n = keys.len();
        let mut i: usize = 0;
        while i < n
            invariant
                0 <= i <= n,
                self.wf(),
                forall|j: int|
                    0 <= j < i ==> self@.contains_key(#[trigger] keys@[j]@) && (if old(
                        self,
                    )@.contains_key(keys@[j]@) {
                        self@[keys@[j]@] == old(self)@[keys@[j]@]
                    } else {
                        self@[keys@[j]@] == single_entry(ord, T::encoded_of(value@))
                    }),
                forall|k: Seq<char>|
                    #![trigger self@.contains_key(k)]
                    !(exists|j: int| 0 <= j < i && #[trigger] keys@[j]@ == k) ==> {
                        &&& (self@.contains_key(k) <==> old(self)@.contains_key(k))
                        &&& (self@.contains_key(k) ==> self@[k] == old(self)@[k])
                    },
            decreases n - i,
        {
            self.set_if_not_exists(ord, keys[i].as_str(), value);
            proof {
                assert forall|k: Seq<char>|
                    #![trigger self@.contains_key(k)]
                    !(exists|j: int| 0 <= j < i + 1 && #[trigger] keys@[j]@ == k) implies {
                    &&& (self@.contains_key(k) <==> old(self)@.contains_key(k))
                    &&& (self@.contains_key(k) ==> self@[k] == old(self)@[k])
                } by {
                    assert(keys@[i as int]@ != k);
                    assert(!(exists|j: int| 0 <= j < i && #[trigger] keys@[j]@ == k));
                }
            }
            i += 1;
        }
    }

    /// Accumulate: decode the previous last value of `key` (the domain
    /// zero when the key is absent), add `value`, and append the sum as a
    /// new entry at `ord`.  A decode failure of the prior bytes aborts
    /// the write and leaves the store unchanged.
    pub fn add<T: Numeric>(&mut self, ord: u64, key: &str, value: &T) -> (r: Result<
        (),
        EncodingError,
    >)
        requires
            old(self).wf(),
            value.inv(),
        ensures
            final(self).wf(),
            final(self)@ == add_outcome::<T>(old(self)@, ord, key@, value@).0,
            r == add_outcome::<T>(old(self)@, ord, key@, value@).1,
    {
        match self.table.get_last(key) {
            None => {
                let b = value.to_bytes();
                self.table.append(ord, key, b);
                Ok(())
            },
            Some(prev) => match T::from_bytes(prev.as_slice()) {
                Err(e) => Err(e),
                Ok(p) => {
                    let nv = p.add_value(value);
                    let b = nv.to_bytes();
                    self.table.append(ord, key, b);
                    Ok(())
                },
            },
        }
    }

    /// Apply `add` to every key of `keys`, in order, stopping at the
    /// first decode failure.
    #[verifier::loop_isolation(false)]
    pub fn add_many<T: Numeric>(&mut self, ord: u64, keys: &Vec<String>, value: &T) -> (r: Result<
        (),
        EncodingError,
    >)
        requires
            old(self).wf(),
            value.inv(),
        ensures
            final(self).wf(),
            ({
                let out = add_all_outcome::<T>(
                    old(self)@,
                    ord,
                    Seq::new(keys@.len(), |i: int| keys@[i]@),
                    value@,
                );
                final(self)@ == out.0 && r == out.1
            }),
    {
        let ghost ks = Seq::new(keys@.len(), |i: int| keys@[i]@);
        let n = keys.len();
        let mut i: usize = 0;
        while i < n
            invariant
                0 <= i <= n,
                self.wf(),
                add_all_outcome::<T>(old(self)@, ord, ks.subrange(0, i as int), value@) == (
                    self@,
                    Ok::<(), EncodingError>(()),
                ),
            decreases n - i,
        {
            let ghost pre = self@;
            let step = self.add(ord, keys[i].as_str(), value);
            proof {
                let full = ks.subrange(0, i + 1);
                assert(full.drop_last() =~= ks.subrange(0, i as int));
                assert(full.last() == keys@[i as int]@);
                assert(add_all_outcome::<T>(old(self)@, ord, full, value@) == add_outcome::<T>(
                    pre,
                    ord,
                    keys@[i as int]@,
                    value@,
                ));
            }
            match step {
                Ok(_) => {},
                Err(e) => {
                    proof {
                        lemma_add_all_outcome_err::<T>(old(self)@, ord, ks, (i + 1) as int, value@);
                        assert(ks.subrange(0, ks.len() as int) =~= ks);
                    }
                    return Err(e);
                },
            }
            i += 1;
        }
        proof {
            assert(ks.subrange(0, n as int) =~= ks);
        }
        Ok(())
    }

    /// Keep-maximum: store `value` at `ord` only when it is strictly
    /// greater than the previous last value (the domain zero when the
    /// key is absent); otherwise the stored value is unchanged.
    pub fn max<T: Numeric>(&mut self, ord: u64, key: &str, value: &T) -> (r: Result<
        (),
        EncodingError,
    >)
        requires
            old(self).wf(),
            value.inv(),
        ensures
            final(self).wf(),
            r is Ok ==> final(self)@ == crate::laws::max_step::<T>(
                old(self)@,
                ord,
                key@,
                value@,
            ),
            (match r {
                Ok(_) => {
                    if old(self)@.contains_key(key@) {
                        T::decoded(old(self)@[key@].last().1) matches Ok(p) && (if T::lt_spec(
                            p,
                            value@,
                        ) {
                            final(self)@ == old(self)@.insert(
                                key@,
                                old(self)@[key@].push((ord, T::encoded_of(value@))),
                            )
                        } else {
                            final(self)@ == old(self)@
                        })
                    } else {
                        final(self)@ == old(self)@.insert(
                            key@,
                            single_entry(
                                ord,
                                T::encoded_of(
                                    if T::lt_spec(T::zero_spec(), value@) {
                                        value@
                                    } else {
                                        T::zero_spec()
                                    },
                                ),
                            ),
                        )
                    }
                },
                Err(e) => {
                    &&& final(self)@ == old(self)@
                    &&& old(self)@.contains_key(key@)
                    &&& T::decoded(old(self)@[key@].last().1) == Err::<T::V, EncodingError>(e)
                },
            }),
    {
        match self.table.get_last(key) {
            None => {
                let zero = T::zero_value();
                if zero.lt_value(value) {
                    let b = value.to_bytes();
                    self.table.replace_or_create(ord, key, b);
                } else {
                    let b = zero.to_bytes();
                    self.table.replace_or_create(ord, key, b);
                }
                Ok(())
            },
            Some(prev) => match T::from_bytes(prev.as_slice()) {
                Err(e) => Err(e),
                Ok(p) => {
                    if p.lt_value(value) {
                        let b = value.to_bytes();
                        self.table.append(ord, key, b);
                    }
                    Ok(())
                },
            },
        }
    }

    /// Keep-minimum: store `value` at `ord` only when it is strictly
    /// smaller than the previous last value (the domain zero when the
    /// key is absent); otherwise the stored value is unchanged.
    pub fn min<T: Numeric>(&mut self, ord: u64, key: &str, value: &T) -> (r: Result<
        (),
        EncodingError,
    >)
        requires
            old(self).wf(),
            value.inv(),
        ensures
            final(self).wf(),
            r is Ok ==> final(self)@ == crate::laws::min_step::<T>(
                old(self)@,
                ord,
                key@,
                value@,
            ),
            (match r {
                Ok(_) => {
                    if old(self)@.contains_key(key@) {
                        T::decoded(old(self)@[key@].last().1) matches Ok(p) && (if T::lt_spec(
                            value@,
                            p,
                        ) {
                            final(self)@ == old(self)@.insert(
                                key@,
                                old(self)@[key@].push((ord, T::encoded_of(value@))),
                            )
                        } else {
                            final(self)@ == old(self)@
                        })
                    } else {
                        final(self)@ == old(self)@.insert(
                            key@,
                            single_entry(
                                ord,
                                T::encoded_of(
                                    if T::lt_spec(value@, T::zero_spec()) {
                                        value@
                                    } else {
                                        T::zero_spec()
                                    },
                                ),
                            ),
                        )
                    }
                },
                Err(e) => {
                    &&& final(self)@ == old(self)@
                    &&& old(self)@.contains_key(key@)
                    &&& T::decoded(old(self)@[key@].last().1) == Err::<T::V, EncodingError>(e)
                },
            }),
    {
        match self.table.get_last(key) {
            None => {
                let zero = T::zero_value();
                if value.lt_value(&zero) {
                    let b = value.to_bytes();
                    self.table.replace_or_create(ord, key, b);
                } else {
                    let b = zero.to_bytes();
                    self.table.replace_or_create(ord, key, b);
                }
                Ok(())
            },
            Some(prev) => match T::from_bytes(prev.as_slice()) {
                Err(e) => Err(e),
                Ok(p) => {
                    if value.lt_value(&p) {
                        let b = value.to_bytes();
                        self.table.append(ord, key, b);
                    }
                    Ok(())
                },
            },
        }
    }

    /// Append: extend the running delimited buffer of `key` with
    /// `item` plus the semicolon delimiter, advancing the buffer's
    /// ordinal to `ord`.  The history stays a single growing entry.
    pub fn append(&mut self, ord: u64, key: &str, item: &str)
        requires
            old(self).wf(),
        ensures
            final(self).wf(),
            final(self)@ == (if old(self)@.contains_key(key@) {
                old(self)@.insert(
                    key@,
                    old(self)@[key@].update(0, (ord, old(self)@[key@][0].1 + delimited(item@))),
                )
            } else {
                old(self)@.insert(key@, single_entry(ord, delimited(item@)))
            }),
    {
        let mut piece = item.as_bytes_vec();
        piece.push(59u8);
        proof {
            assert(piece@ =~= delimited(item@));
        }
        self.table.extend_first(ord, key, piece);
    }

    /// Append every item of `items`, in order, at the ordinal `ord`.
    #[verifier::loop_isolation(false)]
    pub fn append_all(&mut self, ord: u64, key: &str, items: &Vec<String>)
        requires
            old(self).wf(),
        ensures
            final(self).wf(),
            final(self)@ == append_shape(old(self)@, key@, ord, items.deep_view()),
    {
        let ghost dv = items.deep_view();
        let n = items.len();
        let mut i: usize = 0;
        proof {
            assert(dv.len() == items@.len());
            assert(forall|t: int| 0 <= t < n ==> #[trigger] dv[t] == items@[t]@);
            assert(dv.subrange(0, 0) =~= Seq::<Seq<char>>::empty());
            old(self).table.lemma_nonempty_histories();
        }
        while i < n
            invariant
                0 <= i <= n,
                self.wf(),
                self@ == append_shape(old(self)@, key@, ord, dv.subrange(0, i as int)),
            decreases n - i,
        {
            proof {
                lemma_append_shape_step(
                    old(self)@,
                    key@,
                    ord,
                    dv.subrange(0, i as int),
                    dv[i as int],
                );
                assert(dv.subrange(0, i as int).push(dv[i as int]) =~= dv.subrange(0, i + 1));
            }
            self.append(ord, key, items[i].as_str());
            i += 1;
        }
        proof {
            assert(dv.subrange(0, n as int) =~= dv);
        }
    }

    /// Remove every key that starts with `prefix`.  The ordinal argument
    /// is not consulted: deletion applies to the whole history.
    pub fn delete_prefix(&mut self, _ord: i64, prefix: &String)
        requires
            old(self).wf(),
        ensures
            final(self).wf(),
            forall|k: Seq<char>|
                #![trigger final(self)@.contains_key(k)]
                final(self)@.contains_key(k) <==> (old(self)@.contains_key(k) && !is_char_prefix(
                    prefix@,
                    k,
                )),
            forall|k: Seq<char>|
                #![trigger final(self)@[k]]
                final(self)@.contains_key(k) ==> final(self)@[k] == old(self)@[k],
    {
        let _deltas = self.table.delete_prefix(prefix.as_str());
    }
}

/// A store for opaque structured messages: the same versioned table,
/// read and written through a message codec instead of the value
/// codecs.  The message type's own serialisation is trusted to be
/// lossless; the store treats the bytes opaquely.
pub struct MockProtoStore<T> {
    table: VersionedTable,
    phantom: core::marker::PhantomData<T>,
}

impl<T> View for MockProtoStore<T> {
    type V = Map<Seq<char>, Seq<(u64, Seq<u8>)>>;

    closed spec fn view(&self) -> Map<Seq<char>, Seq<(u64, Seq<u8>)>> {
        self.table@
    }
}

impl<T> MockProtoStore<T> {
    pub closed spec fn wf(&self) -> bool {
        self.table.wf()
    }

    pub fn new() -> (r: Self)
        ensures
            r.wf(),
            r@ == Map::<Seq<char>, Seq<(u64, Seq<u8>)>>::empty(),
    {
        MockProtoStore { table: VersionedTable::new(), phantom: core::marker::PhantomData }
    }

    /// True exactly when some write recorded the ordinal `ord` for `key`.
    pub fn has_at(&self, ord: u64, key: &str) -> (r: bool)
        requires
            self.wf(),
        ensures
            r == (self@.contains_key(key@) && has_ordinal(self@[key@], ord)),
    {
        self.table.has_at(ord, key)
    }

    /// True when `key` has any history; never decodes.
    pub fn has_last(&self, key: &str) -> (r: bool)
        requires
            self.wf(),
        ensures
            r == self@.contains_key(key@),
    {
        self.table.has_key(key)
    }

    /// True when `key` has any history; never decodes.
    pub fn has_first(&self, key: &str) -> (r: bool)
        requires
            self.wf(),
        ensures
            r == self@.contains_key(key@),
    {
        self.table.has_key(key)
    }
}

impl<T: FromBytesProto> MockProtoStore<T> {
    /// The most recent message of `key`, which the caller asserts to
    /// exist and to decode; the demand is on the caller, as the name
    /// says.
    pub fn must_get_last(&self, key: &str) -> (r: T)
        requires
            self.wf(),
            self@.contains_key(key@),
            T::decoded_proto(self@[key@].last().1) is Ok,
        ensures
            T::decoded_proto(self@[key@].last().1) == Ok::<T, EncodingError>(r),
    {
        match self.table.get_last(key) {
            Some(b) => match T::from_bytes(b.as_slice()) {
                Ok(v) => v,
                Err(_) => unreached(),
            },
            None => unreached(),
        }
    }

    /// Typed point read: the message recorded for `key` exactly at `ord`.
    pub fn get_at(&self, ord: u64, key: &str) -> (r: Result<Option<T>, EncodingError>)
        requires
            self.wf(),
        ensures
            (match r {
                Ok(Some(v)) => {
                    &&& self@.contains_key(key@)
                    &&& first_at(self@[key@], ord) matches Some(b) && T::decoded_proto(b) == Ok::<
                        T,
                        EncodingError,
                    >(v)
                },
                Ok(None) => !self@.contains_key(key@) || first_at(self@[key@], ord) is None,
                Err(e) => {
                    &&& self@.contains_key(key@)
                    &&& first_at(self@[key@], ord) matches Some(b) && T::decoded_proto(b) == Err::<
                        T,
                        EncodingError,
                    >(e)
                },
            }),
    {
        match self.table.get_at(ord, key) {
            Some(b) => match T::from_bytes(b.as_slice()) {
                Ok(v) => Ok(Some(v)),
                Err(e) => Err(e),
            },
            None => Ok(None),
        }
    }

    /// Typed read of the most recent message of `key`.
    pub fn get_last(&self, key: &str) -> (r: Result<Option<T>, EncodingError>)
        requires
            self.wf(),
        ensures
            (match r {
                Ok(Some(v)) => self@.contains_key(key@) && T::decoded_proto(self@[key@].last().1)
                    == Ok::<T, EncodingError>(v),
                Ok(None) => !self@.contains_key(key@),
                Err(e) => self@.contains_key(key@) && T::decoded_proto(self@[key@].last().1)
                    == Err::<T, EncodingError>(e),
            }),
    {
        match self.table.get_last(key) {
            Some(b) => match T::from_bytes(b.as_slice()) {
                Ok(v) => Ok(Some(v)),
                Err(e) => Err(e),
            },
            None => Ok(None),
        }
    }

    /// Typed read of the earliest message of `key`.
    pub fn get_first(&self, key: &str) -> (r: Result<Option<T>, EncodingError>)
        requires
            self.wf(),
        ensures
            (match r {
                Ok(Some(v)) => self@.contains_key(key@) && T::decoded_proto(self@[key@][0].1)
                    == Ok::<T, EncodingError>(v),
                Ok(None) => !self@.contains_key(key@),
                Err(e) => self@.contains_key(key@) && T::decoded_proto(self@[key@][0].1) == Err::<
                    T,
                    EncodingError,
                >(e),
            }),
    {
        match self.table.get_first(key) {
            Some(b) => match T::from_bytes(b.as_slice()) {
                Ok(v) => Ok(Some(v)),
                Err(e) => Err(e),
            },
            None => Ok(None),
        }
    }
}

impl<T: ToBytesProto> MockProtoStore<T> {
    /// Set `key` to the message `value`: the stored message is replaced
    /// outright, while earlier entries stay readable by their ordinals.
    pub fn set(&mut self, ord: u64, key: &str, value: &T)
        requires
            old(self).wf(),
        ensures
            final(self).wf(),
            final(self)@ == (if old(self)@.contains_key(key@) {
                old(self)@.insert(
                    key@,
                    old(self)@[key@].push((ord, value.encoded_proto())),
                )
            } else {
                old(self)@.insert(key@, single_entry(ord, value.encoded_proto()))
            }),
            T::decoded_proto(value.encoded_proto()) == Ok::<T, EncodingError>(*value),
    {
        let b = value.to_bytes();
        self.table.append(ord, key, b);
    }

    /// Set every key of `keys` to `value`, each as `set` does.
    #[verifier::loop_isolation(false)]
    pub fn set_many(&mut self, ord: u64, keys: &Vec<String>, value: &T)
        requires
            old(self).wf(),
        ensures
            final(self).wf(),
            final(self)@ == set_all_map(
                old(self)@,
                ord,
                Seq::new(keys@.len(), |i: int| keys@[i]@),
                value.encoded_proto(),
            ),
            T::decoded_proto(value.encoded_proto()) == Ok::<T, EncodingError>(*value),
    {
        let ghost ks = Seq::new(keys@.len(), |i: int| keys@[i]@);
        let b = value.to_bytes();
        let n = keys.len();
        let mut i: usize = 0;
        while i < n
            invariant
                0 <= i <= n,
                self.wf(),
                self@ == set_all_map(old(self)@, ord, ks.subrange(0, i as int), b@),
            decreases n - i,
        {
            let ghost pre = self@;
            let bi = vstd::slice::slice_to_vec(b.as_slice());
            self.table.append(ord, keys[i].as_str(), bi);
            proof {
                let full = ks.subrange(0, i + 1);
                assert(full.drop_last() =~= ks.subrange(0, i as int));
                assert(full.last() == keys@[i as int]@);
                assert(set_all_map(old(self)@, ord, full, b@) == (if pre.contains_key(
                    keys@[i as int]@,
                ) {
                    pre.insert(
                        keys@[i as int]@,
                        pre[keys@[i as int]@].push((ord, b@)),
                    )
                } else {
                    pre.insert(keys@[i as int]@, single_entry(ord, b@))
                }));
            }
            i += 1;
        }
        proof {
            assert(ks.subrange(0, n as int) =~= ks);
        }
    }

    /// Set `key` to `value` only when the key has no history.
    pub fn set_if_not_exists(&mut self, ord: u64, key: &str, value: &T)
        requires
            old(self).wf(),
        ensures
            final(self).wf(),
            final(self)@ == (if old(self)@.contains_key(key@) {
                old(self)@
            } else {
                old(self)@.insert(key@, single_entry(ord, value.encoded_proto()))
            }),
            T::decoded_proto(value.encoded_proto()) == Ok::<T, EncodingError>(*value),
    {
        let present = self.table.has_key(key);
        let b = value.to_bytes();
        if !present {
            self.table.replace_or_create(ord, key, b);
        }
    }

    /// Apply `set_if_not_exists` to every key of `keys`, in order.
    #[verifier::loop_isolation(false)]
    pub fn set_if_not_exists_many(&mut self, ord: u64, keys: &Vec<String>, value: &T)
        requires
            old(self).wf(),
        ensures
            final(self).wf(),
            forall|i: int|
                0 <= i < keys@.len() ==> final(self)@.contains_key(#[trigger] keys@[i]@) && (if old(
                    self,
                )@.contains_key(keys@[i]@) {
                    final(self)@[keys@[i]@] == old(self)@[keys@[i]@]
                } else {
                    final(self)@[keys@[i]@] == single_entry(ord, value.encoded_proto())
                }),
            forall|k: Seq<char>|
                #![trigger final(self)@.contains_key(k)]
                !(exists|i: int| 0 <= i < keys@.len() && #[trigger] keys@[i]@ == k) ==> {
                    &&& (final(self)@.contains_key(k) <==> old(self)@.contains_key(k))
                    &&& (final(self)@.contains_key(k) ==> final(self)@[k] == old(self)@[k])
                },
            T::decoded_proto(value.encoded_proto()) == Ok::<T, EncodingError>(*value),
    {
        let b = value.to_bytes();
        let n = keys.len();
        let mut i: usize = 0;
        while i < n
            invariant
                0 <= i <= n,
                self.wf(),
                forall|j: int|
                    0 <= j < i ==> self@.contains_key(#[trigger] keys@[j]@) && (if old(
                        self,
                    )@.contains_key(keys@[j]@) {
                        self@[keys@[j]@] == old(self)@[keys@[j]@]
                    } else {
                        self@[keys@[j]@] == single_entry(ord, value.encoded_proto())
                    }),
                forall|k: Seq<char>|
                    #![trigger self@.contains_key(k)]
                    !(exists|j: int| 0 <= j < i && #[trigger] keys@[j]@ == k) ==> {
                        &&& (self@.contains_key(k) <==> old(self)@.contains_key(k))
                        &&& (self@.contains_key(k) ==> self@[k] == old(self)@[k])
                    },
            decreases n - i,
        {
            self.set_if_not_exists(ord, keys[i].as_str(), value);
            proof {
                assert forall|k: Seq<char>|
                    #![trigger self@.contains_key(k)]
                    !(exists|j: int| 0 <= j < i + 1 && #[trigger] keys@[j]@ == k) implies {
                    &&& (self@.contains_key(k) <==> old(self)@.contains_key(k))
                    &&& (self@.contains_key(k) ==> self@[k] == old(self)@[k])
                } by {
                    assert(keys@[i as int]@ != k);
                    assert(!(exists|j: int| 0 <= j < i && #[trigger] keys@[j]@ == k));
                }
            }
            i += 1;
        }
    }
}

} // verus!
