//! The byte-level versioned table: per key, the append-only ordered
//! history of `(ordinal, encoded bytes)` entries.
//!
//! The table is the single authority on storage.  Its mathematical view
//! is a map from key characters to the sequence of recorded entries, in
//! write order.  Callers are required to write with non-decreasing
//! ordinals per key; the table itself neither sorts nor rejects
//! out-of-order ordinals.

use vstd::prelude::*;
use vstd::pervasive::unreached;
use vstd::slice::slice_to_vec;
use crate::delta::Delta;
use crate::delta::Operation;

verus! {

/// One committed write: the ordinal it happened at and the encoded value.
pub struct VersionedEntry {
    pub ordinal: u64,
    pub data: Vec<u8>,
}

/// The ordered history of one key.
pub struct KeyHistory {
    pub key: String,
    pub entries: Vec<VersionedEntry>,
}

/// The entries of a history as a sequence of `(ordinal, bytes)` pairs.
pub open spec fn entries_view(es: Seq<VersionedEntry>) -> Seq<(u64, Seq<u8>)> {
    Seq::new(es.len(), |i: int| (es[i].ordinal, es[i].data@))
}

/// True when some row of `rows` holds the key `k`.
pub open spec fn has_key(rows: Seq<KeyHistory>, k: Seq<char>) -> bool {
    exists|i: int| 0 <= i < rows.len() && (#[trigger] rows[i]).key@ == k
}

/// The index of the row holding `k` (unique when the keys are distinct).
pub open spec fn key_index(rows: Seq<KeyHistory>, k: Seq<char>) -> int {
    choose|i: int| 0 <= i < rows.len() && (#[trigger] rows[i]).key@ == k
}

/// Distinct keys, and no empty history.
pub open spec fn rows_wf(rows: Seq<KeyHistory>) -> bool {
    &&& (forall|i: int, j: int|
        0 <= i < j < rows.len() ==> (#[trigger] rows[i]).key@ != (#[trigger] rows[j]).key@)
    &&& (forall|i: int| 0 <= i < rows.len() ==> (#[trigger] rows[i]).entries@.len() > 0)
}

/// The key-to-history map denoted by a row sequence.
pub open spec fn rows_view(rows: Seq<KeyHistory>) -> Map<Seq<char>, Seq<(u64, Seq<u8>)>> {
    Map::new(
        |k: Seq<char>| has_key(rows, k),
        |k: Seq<char>| entries_view(rows[key_index(rows, k)].entries@),
    )
}

/// True when `p` is a prefix of the character sequence `k`.
pub open spec fn is_char_prefix(p: Seq<char>, k: Seq<char>) -> bool {
    p.len() <= k.len() && k.subrange(0, p.len() as int) == p
}

/// The first entry of `es` recorded exactly at `ord`, if any.
pub open spec fn first_at(es: Seq<(u64, Seq<u8>)>, ord: u64) -> Option<Seq<u8>>
    decreases es.len(),
{
    if es.len() == 0 {
        None
    } else if es[0].0 == ord {
        Some(es[0].1)
    } else {
        first_at(es.drop_first(), ord)
    }
}

/// True when some entry of `es` was recorded exactly at `ord`.
pub open spec fn has_ordinal(es: Seq<(u64, Seq<u8>)>, ord: u64) -> bool {
    exists|i: int| 0 <= i < es.len() && (#[trigger] es[i]).0 == ord
}

/// The rows of `rows` whose key does not start with `p`.
pub open spec fn keep_rows(rows: Seq<KeyHistory>, p: Seq<char>) -> Seq<KeyHistory>
    decreases rows.len(),
{
    if rows.len() == 0 {
        Seq::empty()
    } else {
        let rest = keep_rows(rows.drop_last(), p);
        if is_char_prefix(p, rows.last().key@) {
            rest
        } else {
            rest.push(rows.last())
        }
    }
}

/// The rows of `rows` whose key starts with `p`, in row order.
pub open spec fn removed_rows(rows: Seq<KeyHistory>, p: Seq<char>) -> Seq<KeyHistory>
    decreases rows.len(),
{
    if rows.len() == 0 {
        Seq::empty()
    } else {
        let rest = removed_rows(rows.drop_last(), p);
        if is_char_prefix(p, rows.last().key@) {
            rest.push(rows.last())
        } else {
            rest
        }
    }
}

/// Relies on `str::starts_with`: with a `&str` pattern it reports whether
/// the pattern's characters are a prefix of the receiver's characters.
#[verifier::external_body]
pub(crate) fn str_starts_with(s: &str, p: &str) -> (r: bool)
    ensures
        r == is_char_prefix(p@, s@),
{
    s.starts_with(p)
}

/// The byte-level store: a mapping from key to ordered history.
pub struct VersionedTable {
    rows: Vec<KeyHistory>,
}

impl View for VersionedTable {
    type V = Map<Seq<char>, Seq<(u64, Seq<u8>)>>;

    closed spec fn view(&self) -> Map<Seq<char>, Seq<(u64, Seq<u8>)>> {
        rows_view(self.rows@)
    }
}

impl VersionedTable {
    /// Well-formedness: one history per key, and no empty history.
    pub closed spec fn wf(&self) -> bool {
        rows_wf(self.rows@)
    }

    /// The keys of the table, in row order.
    pub closed spec fn key_seq(&self) -> Seq<Seq<char>> {
        Seq::new(self.rows@.len(), |i: int| self.rows@[i].key@)
    }

    /// The rows whose key starts with `p`, in row order (used to state
    /// what `delete_prefix` reports).
    pub closed spec fn rows_with_prefix(&self, p: Seq<char>) -> Seq<KeyHistory> {
        removed_rows(self.rows@, p)
    }

    /// In a well-formed table no key maps to an empty history.
    pub proof fn lemma_nonempty_histories(&self)
        requires
            self.wf(),
        ensures
            forall|k: Seq<char>|
                #[trigger] self@.contains_key(k) ==> self@[k].len() > 0,
    {
        assert forall|k: Seq<char>| #[trigger] self@.contains_key(k) implies self@[k].len() > 0 by {
            let a = key_index(self.rows@, k);
            assert(0 <= a < self.rows@.len() && self.rows@[a].key@ == k);
        }
    }

    proof fn lemma_row_view(&self, i: int)
        requires
            self.wf(),
            0 <= i < self.rows@.len(),
        ensures
            has_key(self.rows@, self.rows@[i].key@),
            key_index(self.rows@, self.rows@[i].key@) == i,
            self@.contains_key(self.rows@[i].key@),
            self@[self.rows@[i].key@] == entries_view(self.rows@[i].entries@),
    {
        assert(has_key(self.rows@, self.rows@[i].key@));
        let j = key_index(self.rows@, self.rows@[i].key@);
        if j != i {
            assert(self.rows@[i].key@ != self.rows@[j].key@);
        }
    }

    pub fn new() -> (r: Self)
        ensures
            r.wf(),
            r@ == Map::<Seq<char>, Seq<(u64, Seq<u8>)>>::empty(),
    {
        let t = VersionedTable { rows: Vec::new() };
        proof {
            assert(t@ =~= Map::<Seq<char>, Seq<(u64, Seq<u8>)>>::empty());
        }
        t
    }

    /// Index of the row holding `key`, if any.
    #[verifier::loop_isolation(false)]
    fn find(&self, key: &str) -> (r: Option<usize>)
        requires
            self.wf(),
        ensures
            (match r {
                Some(i) => {
                    &&& i < self.rows@.len()
                    &&& self.rows@[i as int].key@ == key@
                    &&& self@.contains_key(key@)
                    &&& key_index(self.rows@, key@) == i
                    &&& self@[key@] == entries_view(self.rows@[i as int].entries@)
                },
                None => !self@.contains_key(key@),
            }),
    {
        let k = key.to_owned();
        let n = self.rows.len();
        let mut i: usize = 0;
        while i < n
            invariant
                0 <= i <= n,
                n == self.rows@.len(),
                k@ == key@,
                self.wf(),
                forall|j: int| 0 <= j < i ==> (#[trigger] self.rows@[j]).key@ != key@,
            decreases n - i,
        {
            if self.rows[i].key == k {
                proof {
                    self.lemma_row_view(i as int);
                }
                return Some(i);
            }
            i += 1;
        }
        proof {
            assert(!has_key(self.rows@, key@));
        }
        None
    }

    /// The entry recorded for `key` exactly at `ord`, if any; when several
    /// entries carry the same ordinal, the earliest one.
    #[verifier::loop_isolation(false)]
    pub fn get_at(&self, ord: u64, key: &str) -> (r: Option<Vec<u8>>)
        requires
            self.wf(),
        ensures
            (match r {
                Some(b) => self@.contains_key(key@) && first_at(self@[key@], ord) == Some(b@),
                None => !self@.contains_key(key@) || first_at(self@[key@], ord) is None,
            }),
    {
        let i = match self.find(key) {
            Some(i) => i,
            None => {
                return None;
            },
        };
        let es = &self.rows[i].entries;
        let ghost ev = entries_view(es@);
        let n = es.len();
        let mut j: usize = 0;
        while j < n
            invariant
                0 <= j <= n,
                n == es@.len(),
                ev == entries_view(es@),
                forall|t: int| 0 <= t < j ==> (#[trigger] ev[t]).0 != ord,
            decreases n - j,
        {
            if es[j].ordinal == ord {
                proof {
                    lemma_first_at_found(ev, ord, j as int);
                }
                return Some(slice_to_vec(es[j].data.as_slice()));
            }
            j += 1;
        }
        proof {
            lemma_first_at_none(ev, ord);
        }
        None
    }

    /// The most recently appended entry for `key`.
    pub fn get_last(&self, key: &str) -> (r: Option<Vec<u8>>)
        requires
            self.wf(),
        ensures
            (match r {
                Some(b) => self@.contains_key(key@) && b@ == self@[key@].last().1,
                None => !self@.contains_key(key@),
            }),
    {
        match self.find(key) {
            Some(i) => {
                let es = &self.rows[i].entries;
                Some(slice_to_vec(es[es.len() - 1].data.as_slice()))
            },
            None => None,
        }
    }

    /// The ordinal of the most recently appended entry for `key`.
    pub fn last_ordinal(&self, key: &str) -> (r: Option<u64>)
        requires
            self.wf(),
        ensures
            (match r {
                Some(o) => self@.contains_key(key@) && o == self@[key@].last().0,
                None => !self@.contains_key(key@),
            }),
    {
        match self.find(key) {
            Some(i) => {
                let es = &self.rows[i].entries;
                Some(es[es.len() - 1].ordinal)
            },
            None => None,
        }
    }

    /// The earliest appended entry for `key`.
    pub fn get_first(&self, key: &str) -> (r: Option<Vec<u8>>)
        requires
            self.wf(),
        ensures
            (match r {
                Some(b) => self@.contains_key(key@) && b@ == self@[key@][0].1,
                None => !self@.contains_key(key@),
            }),
    {
        match self.find(key) {
            Some(i) => {
                let es = &self.rows[i].entries;
                Some(slice_to_vec(es[0].data.as_slice()))
            },
            None => None,
        }
    }

    /// True when some write recorded exactly `ord` for `key`.
    #[verifier::loop_isolation(false)]
    pub fn has_at(&self, ord: u64, key: &str) -> (r: bool)
        requires
            self.wf(),
        ensures
            r == (self@.contains_key(key@) && has_ordinal(self@[key@], ord)),
    {
        let i = match self.find(key) {
            Some(i) => i,
            None => {
                return false;
            },
        };
        let es = &self.rows[i].entries;
        let ghost ev = entries_view(es@);
        let n = es.len();
        let mut j: usize = 0;
        while j < n
            invariant
                0 <= j <= n,
                n == es@.len(),
                ev == entries_view(es@),
                forall|t: int| 0 <= t < j ==> (#[trigger] ev[t]).0 != ord,
            decreases n - j,
        {
            if es[j].ordinal == ord {
                proof {
                    assert(ev[j as int].0 == ord);
                }
                return true;
            }
            j += 1;
        }
        proof {
            assert(!has_ordinal(ev, ord));
        }
        false
    }

    /// True when `key` has any history at all.
    pub fn has_key(&self, key: &str) -> (r: bool)
        requires
            self.wf(),
        ensures
            r == self@.contains_key(key@),
    {
        self.find(key).is_some()
    }

    /// Push a new entry onto the history of `key`, creating the history
    /// when the key is new.  Never removes or alters existing entries.
    pub fn append(&mut self, ord: u64, key: &str, bytes: Vec<u8>)
        requires
            old(self).wf(),
        ensures
            final(self).wf(),
            final(self)@ == (if old(self)@.contains_key(key@) {
                old(self)@.insert(key@, old(self)@[key@].push((ord, bytes@)))
            } else {
                old(self)@.insert(key@, seq![(ord, bytes@)])
            }),
    {
        let entry = VersionedEntry { ordinal: ord, data: bytes };
        match self.find(key) {
            Some(i) => {
                let ghost old_rows = self.rows@;
                let row = &mut self.rows[i];
                row.entries.push(entry);
                proof {
                    assert(entries_view(self.rows@[i as int].entries@) =~= entries_view(
                        old_rows[i as int].entries@,
                    ).push((ord, entry.data@)));
                    lemma_view_update_entries(old_rows, self.rows@, i as int);
                }
            },
            None => {
                let row = KeyHistory { key: key.to_owned(), entries: vec_of_one(entry) };
                let ghost old_rows = self.rows@;
                self.rows.push(row);
                proof {
                    assert(entries_view(self.rows@.last().entries@) =~= seq![(ord, bytes@)]);
                    lemma_view_push_row(old_rows, self.rows@);
                }
            },
        }
    }

    /// Give `key` the single-entry history `(ord, bytes)`: create it when
    /// absent, replace the whole history when present.
    pub fn replace_or_create(&mut self, ord: u64, key: &str, bytes: Vec<u8>)
        requires
            old(self).wf(),
        ensures
            final(self).wf(),
            final(self)@ == old(self)@.insert(key@, seq![(ord, bytes@)]),
    {
        let entry = VersionedEntry { ordinal: ord, data: bytes };
        match self.find(key) {
            Some(i) => {
                let ghost old_rows = self.rows@;
                let row = &mut self.rows[i];
                row.entries = vec_of_one(entry);
                proof {
                    assert(entries_view(self.rows@[i as int].entries@) =~= seq![(ord, bytes@)]);
                    lemma_view_update_entries(old_rows, self.rows@, i as int);
                }
            },
            None => {
                let row = KeyHistory { key: key.to_owned(), entries: vec_of_one(entry) };
                let ghost old_rows = self.rows@;
                self.rows.push(row);
                proof {
                    assert(entries_view(self.rows@.last().entries@) =~= seq![(ord, bytes@)]);
                    lemma_view_push_row(old_rows, self.rows@);
                }
            },
        }
    }

    /// Extend the running buffer of `key`: create a single-entry history
    /// when absent; otherwise advance the first entry's ordinal to `ord`
    /// and append `piece` to its bytes.  This is the storage shape of the
    /// append operator, which treats the value as one growing ledger
    /// rather than a series of snapshots.
    pub fn extend_first(&mut self, ord: u64, key: &str, piece: Vec<u8>)
        requires
            old(self).wf(),
        ensures
            final(self).wf(),
            final(self)@ == (if old(self)@.contains_key(key@) {
                old(self)@.insert(
                    key@,
                    old(self)@[key@].update(0, (ord, old(self)@[key@][0].1 + piece@)),
                )
            } else {
                old(self)@.insert(key@, seq![(ord, piece@)])
            }),
    {
        match self.find(key) {
            Some(i) => {
                let ghost old_rows = self.rows@;
                let ghost old_entries = self.rows@[i as int].entries@;
                let row = &mut self.rows[i];
                let e0 = &mut row.entries[0];
                e0.ordinal = ord;
                e0.data.extend_from_slice(piece.as_slice());
                proof {
                    assert(self.rows@[i as int].entries@[0].data@ =~= old_entries[0].data@
                        + piece@);
                    assert(entries_view(self.rows@[i as int].entries@) =~= entries_view(
                        old_entries,
                    ).update(0, (ord, old_entries[0].data@ + piece@)));
                    lemma_view_update_entries(old_rows, self.rows@, i as int);
                }
            },
            None => {
                let entry = VersionedEntry { ordinal: ord, data: piece };
                let row = KeyHistory { key: key.to_owned(), entries: vec_of_one(entry) };
                let ghost old_rows = self.rows@;
                self.rows.push(row);
                proof {
                    assert(entries_view(self.rows@.last().entries@) =~= seq![(
                        ord,
                        self.rows@.last().entries@[0].data@,
                    )]);
                    lemma_view_push_row(old_rows, self.rows@);
                }
            },
        }
    }

    /// Remove every key that starts with `prefix`, wholesale, and report
    /// one deletion delta per removed key, in row order, carrying the last
    /// known bytes and ordinal of the removed history.
    #[verifier::loop_isolation(false)]
    pub fn delete_prefix(&mut self, prefix: &str) -> (deltas: Vec<Delta>)
        requires
            old(self).wf(),
        ensures
            final(self).wf(),
            forall|k: Seq<char>|
                #![trigger final(self)@.contains_key(k)]
                final(self)@.contains_key(k) <==> (old(self)@.contains_key(k) && !is_char_prefix(
                    prefix@,
                    k,
                )),
            forall|k: Seq<char>|
                #![trigger final(self)@[k]]
                final(self)@.contains_key(k) ==> final(self)@[k] == old(self)@[k],
            ({
                let rem = old(self).rows_with_prefix(prefix@);
                &&& deltas@.len() == rem.len()
                &&& forall|i: int|
                    #![trigger rem[i]]
                    0 <= i < rem.len() ==> {
                        let es = entries_view(rem[i].entries@);
                        &&& deltas@[i].operation == Operation::Delete
                        &&& deltas@[i].key@ == rem[i].key@
                        &&& deltas@[i].ordinal == es.last().0
                        &&& deltas@[i].old_value matches Some(ov) && ov@ == es.last().1
                        &&& deltas@[i].new_value is None
                    }
            }),
    {
        let ghost orig = self.rows@;
        let mut deltas: Vec<Delta> = Vec::new();
        let mut i: usize = 0;
        let ghost mut j: int = 0;
        proof {
            assert(orig.subrange(0, 0) =~= Seq::<KeyHistory>::empty());
            assert(self.rows@ =~= keep_rows(orig.subrange(0, 0), prefix@) + orig.subrange(
                0,
                orig.len() as int,
            ));
        }
        while i < self.rows.len()
            invariant
                rows_wf(orig),
                orig == old(self).rows@,
                0 <= j <= orig.len(),
                i == keep_rows(orig.subrange(0, j), prefix@).len(),
                self.rows@ =~= keep_rows(orig.subrange(0, j), prefix@) + orig.subrange(
                    j,
                    orig.len() as int,
                ),
                deltas@.len() == removed_rows(orig.subrange(0, j), prefix@).len(),
                forall|t: int|
                    #![trigger deltas@[t]]
                    0 <= t < deltas@.len() ==> {
                        let rem = removed_rows(orig.subrange(0, j), prefix@);
                        let es = entries_view(rem[t].entries@);
                        &&& deltas@[t].operation == Operation::Delete
                        &&& deltas@[t].key@ == rem[t].key@
                        &&& deltas@[t].ordinal == es.last().0
                        &&& deltas@[t].old_value matches Some(ov) && ov@ == es.last().1
                        &&& deltas@[t].new_value is None
                    },
            decreases self.rows@.len() - i,
        {
            proof {
                assert(j < orig.len());
                assert(orig.subrange(0, j + 1).drop_last() =~= orig.subrange(0, j));
                assert(orig.subrange(0, j + 1).last() == orig[j]);
                assert(self.rows@[i as int] == orig[j]);
                assert(orig[j].entries@.len() > 0);
            }
            let matches_prefix = str_starts_with(self.rows[i].key.as_str(), prefix);
            if matches_prefix {
                let row = self.rows.remove(i);
                let KeyHistory { key: rkey, entries: mut res } = row;
                let ghost es = entries_view(res@);
                let last = match res.pop() {
                    Some(e) => e,
                    None => unreached(),
                };
                let d = crate::delta::record_delete(last.ordinal, rkey, last.data);
                deltas.push(d);
                proof {
                    assert(es.last().0 == last.ordinal && es.last().1 == last.data@);
                    assert(self.rows@ =~= keep_rows(orig.subrange(0, j + 1), prefix@)
                        + orig.subrange(j + 1, orig.len() as int));
                }
            } else {
                i += 1;
                proof {
                    assert(keep_rows(orig.subrange(0, j + 1), prefix@) =~= keep_rows(
                        orig.subrange(0, j),
                        prefix@,
                    ).push(orig[j]));
                    assert(self.rows@ =~= keep_rows(orig.subrange(0, j + 1), prefix@)
                        + orig.subrange(j + 1, orig.len() as int));
                }
            }
            proof {
                j = j + 1;
            }
        }
        proof {
            assert(orig.subrange(0, j) =~= orig);
            assert(self.rows@ =~= keep_rows(orig, prefix@));
            lemma_keep_rows_view(orig, prefix@);
        }
        deltas
    }
}

/// A vector holding exactly one element.
fn vec_of_one(e: VersionedEntry) -> (r: Vec<VersionedEntry>)
    ensures
        r@ =~= seq![e],
{
    let mut v: Vec<VersionedEntry> = Vec::new();
    v.push(e);
    v
}

proof fn lemma_first_at_found(es: Seq<(u64, Seq<u8>)>, ord: u64, i: int)
    requires
        0 <= i < es.len(),
        es[i].0 == ord,
        forall|t: int| 0 <= t < i ==> (#[trigger] es[t]).0 != ord,
    ensures
        first_at(es, ord) == Some(es[i].1),
    decreases es.len(),
{
    if i > 0 {
        assert(es[0].0 != ord);
        let tl = es.drop_first();
        assert(tl[i - 1] == es[i]);
        assert(forall|t: int| 0 <= t < i - 1 ==> #[trigger] tl[t] == es[t + 1]);
        lemma_first_at_found(tl, ord, i - 1);
    }
}

proof fn lemma_first_at_none(es: Seq<(u64, Seq<u8>)>, ord: u64)
    requires
        forall|t: int| 0 <= t < es.len() ==> (#[trigger] es[t]).0 != ord,
    ensures
        first_at(es, ord) is None,
    decreases es.len(),
{
    if es.len() > 0 {
        let tl = es.drop_first();
        assert(forall|t: int| 0 <= t < tl.len() ==> #[trigger] tl[t] == es[t + 1]);
        lemma_first_at_none(tl, ord);
    }
}

/// Changing the entries of one row (key kept, history still nonempty)
/// changes the row-sequence view by exactly one map binding.
proof fn lemma_view_update_entries(old_rows: Seq<KeyHistory>, new_rows: Seq<KeyHistory>, i: int)
    requires
        rows_wf(old_rows),
        0 <= i < old_rows.len(),
        new_rows.len() == old_rows.len(),
        forall|t: int| 0 <= t < old_rows.len() && t != i ==> #[trigger] new_rows[t] == old_rows[t],
        new_rows[i].key@ == old_rows[i].key@,
        new_rows[i].entries@.len() > 0,
    ensures
        rows_wf(new_rows),
        rows_view(new_rows) == rows_view(old_rows).insert(
            old_rows[i].key@,
            entries_view(new_rows[i].entries@),
        ),
    {
        let k = old_rows[i].key@;
        assert(forall|t: int| 0 <= t < new_rows.len() ==> (#[trigger] new_rows[t]).key@
            == old_rows[t].key@);
        assert(rows_wf(new_rows));
        let mv = rows_view(new_rows);
        let tv = rows_view(old_rows).insert(k, entries_view(new_rows[i].entries@));
        assert forall|q: Seq<char>| mv.contains_key(q) <==> tv.contains_key(q) by {
            if has_key(new_rows, q) {
                let a = key_index(new_rows, q);
                assert(old_rows[a].key@ == q);
                assert(has_key(old_rows, q));
            }
            if has_key(old_rows, q) {
                let a = key_index(old_rows, q);
                assert(new_rows[a].key@ == q);
                assert(has_key(new_rows, q));
            }
        }
        assert forall|q: Seq<char>| mv.contains_key(q) implies mv[q] == tv[q] by {
            let a = key_index(new_rows, q);
            assert(0 <= a < new_rows.len() && new_rows[a].key@ == q);
            if q == k {
                if a != i {
                    assert(new_rows[a].key@ != new_rows[i].key@);
                }
                assert(a == i);
                assert(mv[q] == entries_view(new_rows[i].entries@));
            } else {
                assert(a != i);
                let b = key_index(old_rows, q);
                assert(has_key(old_rows, q));
                assert(0 <= b < old_rows.len() && old_rows[b].key@ == q);
                if a != b {
                    assert(new_rows[a].key@ != new_rows[b].key@);
                }
                assert(a == b);
                assert(mv[q] == entries_view(old_rows[a].entries@));
            }
        }
        assert(mv =~= tv);
    }

/// Pushing a row with a fresh key inserts exactly one map binding.
proof fn lemma_view_push_row(old_rows: Seq<KeyHistory>, new_rows: Seq<KeyHistory>)
    requires
        rows_wf(old_rows),
        new_rows.len() == old_rows.len() + 1,
        forall|t: int| 0 <= t < old_rows.len() ==> #[trigger] new_rows[t] == old_rows[t],
        !has_key(old_rows, new_rows.last().key@),
        new_rows.last().entries@.len() > 0,
    ensures
        rows_wf(new_rows),
        rows_view(new_rows) == rows_view(old_rows).insert(
            new_rows.last().key@,
            entries_view(new_rows.last().entries@),
        ),
    {
        let k = new_rows.last().key@;
        let n = old_rows.len() as int;
        assert forall|a: int, b: int| 0 <= a < b < new_rows.len() implies (
        #[trigger] new_rows[a]).key@ != (#[trigger] new_rows[b]).key@ by {
            if b == n {
                assert(new_rows[a] == old_rows[a]);
                if new_rows[a].key@ == k {
                    assert(has_key(old_rows, k));
                }
            }
        }
        let mv = rows_view(new_rows);
        let tv = rows_view(old_rows).insert(k, entries_view(new_rows.last().entries@));
        assert forall|q: Seq<char>| mv.contains_key(q) <==> tv.contains_key(q) by {
            if has_key(new_rows, q) {
                let a = key_index(new_rows, q);
                if a < n {
                    assert(old_rows[a].key@ == q);
                    assert(has_key(old_rows, q));
                }
            }
            if has_key(old_rows, q) {
                let a = key_index(old_rows, q);
                assert(new_rows[a].key@ == q);
                assert(has_key(new_rows, q));
            }
        }
        assert forall|q: Seq<char>| mv.contains_key(q) implies mv[q] == tv[q] by {
            let a = key_index(new_rows, q);
            assert(0 <= a < new_rows.len() && new_rows[a].key@ == q);
            if q == k {
                if a != n {
                    assert(new_rows[a].key@ != new_rows[n].key@);
                }
                assert(a == n);
            } else {
                assert(a != n);
                let b = key_index(old_rows, q);
                assert(has_key(old_rows, q));
                if a != b {
                    assert(new_rows[a].key@ != new_rows[b].key@);
                }
                assert(a == b);
                assert(mv[q] == entries_view(old_rows[a].entries@));
            }
        }
        assert(mv =~= tv);
    }

/// What surviving a prefix delete means for the view: exactly the keys
/// without the prefix remain, with their histories untouched.
proof fn lemma_keep_rows_view(rows: Seq<KeyHistory>, p: Seq<char>)
    requires
        rows_wf(rows),
    ensures
        rows_wf(keep_rows(rows, p)),
        forall|q: Seq<char>|
            #![trigger has_key(keep_rows(rows, p), q)]
            has_key(keep_rows(rows, p), q) <==> (has_key(rows, q) && !is_char_prefix(p, q)),
        forall|q: Seq<char>|
            #![trigger rows_view(keep_rows(rows, p))[q]]
            has_key(keep_rows(rows, p), q) ==> rows_view(keep_rows(rows, p))[q] == rows_view(
                rows,
            )[q],
    decreases rows.len(),
{
    if rows.len() == 0 {
    } else {
        let rs = rows.drop_last();
        let r = rows.last();
        let kp = keep_rows(rows, p);
        assert(rows_wf(rs)) by {
            assert(forall|t: int| 0 <= t < rs.len() ==> #[trigger] rs[t] == rows[t]);
        }
        lemma_keep_rows_view(rs, p);
        let kps = keep_rows(rs, p);
        // The last row's key is fresh among the earlier rows, hence also
        // fresh among the kept earlier rows.
        assert(!has_key(rs, r.key@)) by {
            if has_key(rs, r.key@) {
                let a = key_index(rs, r.key@);
                assert(rows[a].key@ == rows[rows.len() - 1].key@);
            }
        }
        assert(forall|t: int| 0 <= t < rs.len() ==> #[trigger] rs[t] == rows[t]);
        if is_char_prefix(p, r.key@) {
            assert(kp == kps);
            assert forall|q: Seq<char>| #![trigger has_key(kp, q)]
                has_key(kp, q) <==> (has_key(rows, q) && !is_char_prefix(p, q)) by {
                if has_key(rows, q) && !is_char_prefix(p, q) {
                    let a = key_index(rows, q);
                    assert(a < rs.len()) by {
                        if a == rs.len() {
                            assert(q == r.key@);
                        }
                    }
                    assert(rs[a].key@ == q);
                    assert(has_key(rs, q));
                }
                if has_key(kps, q) {
                    assert(has_key(rs, q) && !is_char_prefix(p, q));
                    let a = key_index(rs, q);
                    assert(rows[a].key@ == q);
                    assert(has_key(rows, q));
                }
            }
            assert forall|q: Seq<char>| #![trigger rows_view(kp)[q]]
                has_key(kp, q) implies rows_view(kp)[q] == rows_view(rows)[q] by {
                assert(has_key(rs, q) && !is_char_prefix(p, q));
                lemma_rows_view_extends(rs, rows, q);
            }
        } else {
            assert(kp == kps.push(r));
            lemma_view_push_row_has(kps, kp, r);
            assert forall|q: Seq<char>| #![trigger has_key(kp, q)]
                has_key(kp, q) <==> (has_key(rows, q) && !is_char_prefix(p, q)) by {
                if has_key(kp, q) {
                    let a = key_index(kp, q);
                    if a == kp.len() - 1 {
                        assert(q == r.key@);
                        assert(has_key(rows, q)) by {
                            assert(rows[rows.len() - 1].key@ == q);
                        }
                    } else {
                        assert(kp[a] == kps[a]);
                        assert(has_key(kps, q));
                        assert(has_key(rs, q) && !is_char_prefix(p, q));
                        let b = key_index(rs, q);
                        assert(rows[b].key@ == q);
                        assert(has_key(rows, q));
                    }
                }
                if has_key(rows, q) && !is_char_prefix(p, q) {
                    let a = key_index(rows, q);
                    if a == rows.len() - 1 {
                        assert(kp[kp.len() - 1].key@ == q);
                        assert(has_key(kp, q));
                    } else {
                        assert(rs[a].key@ == q);
                        assert(has_key(rs, q));
                        assert(has_key(kps, q));
                        let b = key_index(kps, q);
                        assert(kp[b].key@ == q);
                        assert(has_key(kp, q));
                    }
                }
            }
            assert(rows_wf(kp)) by {
                assert(!has_key(kps, r.key@));
                assert(forall|t: int| 0 <= t < kps.len() ==> #[trigger] kp[t] == kps[t]);
                assert forall|a: int, b: int| 0 <= a < b < kp.len() implies (
                #[trigger] kp[a]).key@ != (#[trigger] kp[b]).key@ by {
                    if b == kp.len() - 1 {
                        if kp[a].key@ == r.key@ {
                            assert(kps[a].key@ == r.key@);
                            assert(has_key(kps, r.key@));
                        }
                    }
                }
            }
            assert forall|q: Seq<char>| #![trigger rows_view(kp)[q]]
                has_key(kp, q) implies rows_view(kp)[q] == rows_view(rows)[q] by {
                let a = key_index(kp, q);
                if a == kp.len() - 1 {
                    assert(q == r.key@);
                    lemma_key_index_last(kp, q);
                    lemma_key_index_last(rows, q);
                    assert(rows_view(kp)[q] == entries_view(r.entries@));
                    assert(rows_view(rows)[q] == entries_view(r.entries@));
                } else {
                    assert(kp[a] == kps[a]);
                    assert(has_key(kps, q));
                    assert(q != r.key@) by {
                        if q == r.key@ {
                            assert(has_key(kps, r.key@));
                            assert(has_key(rs, r.key@));
                        }
                    }
                    lemma_rows_view_extends(kps, kp, q);
                    assert(has_key(rs, q));
                    lemma_rows_view_extends(rs, rows, q);
                }
            }
        }
    }
}

/// Views agree on a key held by a shared strict prefix of the rows.
proof fn lemma_rows_view_extends(rs: Seq<KeyHistory>, rows: Seq<KeyHistory>, q: Seq<char>)
    requires
        rows_wf(rows),
        rs.len() <= rows.len(),
        forall|t: int| 0 <= t < rs.len() ==> #[trigger] rows[t] == rs[t],
        forall|t: int| rs.len() <= t < rows.len() ==> (#[trigger] rows[t]).key@ != q,
        has_key(rs, q),
    ensures
        rows_view(rs)[q] == rows_view(rows)[q],
{
    let a = key_index(rs, q);
    assert(0 <= a < rs.len() && rs[a].key@ == q);
    assert(rows[a].key@ == q);
    assert(has_key(rows, q));
    let b = key_index(rows, q);
    assert(rows_wf(rs)) by {
        assert(forall|t: int| 0 <= t < rs.len() ==> #[trigger] rs[t] == rows[t]);
    }
    let a2 = key_index(rows, q);
    if a2 != a {
        assert(rows[a2].key@ == rows[a].key@);
    }
    assert(rows_view(rows)[q] == entries_view(rows[a].entries@));
    let a3 = key_index(rs, q);
    assert(rows_view(rs)[q] == entries_view(rs[a3].entries@));
    if a3 != a {
        assert(rs[a3].key@ == rs[a].key@);
        assert(rows[a3].key@ == rows[a].key@);
    }
}

/// A key that names the last row of a well-formed row sequence indexes it.
proof fn lemma_key_index_last(rows: Seq<KeyHistory>, q: Seq<char>)
    requires
        rows_wf(rows),
        rows.len() > 0,
        rows.last().key@ == q,
    ensures
        key_index(rows, q) == rows.len() - 1,
        rows_view(rows)[q] == entries_view(rows.last().entries@),
{
    assert(has_key(rows, q)) by {
        assert(rows[rows.len() - 1].key@ == q);
    }
    let a = key_index(rows, q);
    if a != rows.len() - 1 {
        assert(rows[a].key@ != rows[rows.len() - 1].key@);
    }
}

/// Pushing a row adds its key.
proof fn lemma_view_push_row_has(kps: Seq<KeyHistory>, kp: Seq<KeyHistory>, r: KeyHistory)
    requires
        kp == kps.push(r),
    ensures
        has_key(kp, r.key@),
        forall|q: Seq<char>| has_key(kps, q) ==> #[trigger] has_key(kp, q),
{
    assert(kp[kp.len() - 1].key@ == r.key@);
    assert forall|q: Seq<char>| has_key(kps, q) implies #[trigger] has_key(kp, q) by {
        let a = key_index(kps, q);
        assert(kp[a].key@ == q);
    }
}

} // verus!
