//! The delimited-array domain: reading semicolon-delimited buffers of
//! text elements.
//!
//! An array value is stored as the elements' UTF-8 text joined by a
//! single ASCII semicolon after each element.  Decoding splits on the
//! semicolon, drops empty chunks, and yields "no array" instead of an
//! empty one, so that callers can distinguish an absent value from an
//! empty buffer.

use vstd::prelude::*;
use vstd::slice::slice_to_vec;
use vstd::utf8::decode_utf8;
use vstd::utf8::encode_scalar;
use vstd::utf8::encode_utf8;
use vstd::utf8::char_u32_cast;
use vstd::utf8::char_is_scalar;
use vstd::utf8::valid_utf8;
use crate::table::first_at;
use crate::table::has_ordinal;
use crate::table::VersionedTable;
use crate::store::delimited;
use crate::store::delimited_all;
use crate::store::single_entry;
use crate::traits::utf8_to_string;
use crate::traits::EncodingError;

verus! {

/// Index of the first semicolon byte in `b`, or `-1` when absent.
pub open spec fn first_semi(b: Seq<u8>) -> int
    decreases b.len(),
{
    if b.len() == 0 {
        -1
    } else if b[0] == 59u8 {
        0
    } else {
        let r = first_semi(b.drop_first());
        if r < 0 {
            -1
        } else {
            r + 1
        }
    }
}

/// The chunks of `b` between semicolons, in order, empty chunks
/// included; the bytes after a trailing semicolon contribute nothing.
pub open spec fn semi_chunks(b: Seq<u8>) -> Seq<Seq<u8>>
    decreases b.len(),
{
    let p = first_semi(b);
    if b.len() == 0 {
        Seq::empty()
    } else if p < 0 || p >= b.len() {
        seq![b]
    } else {
        seq![b.subrange(0, p)] + semi_chunks(b.subrange(p + 1, b.len() as int))
    }
}

/// The chunks with the empty ones dropped.
pub open spec fn drop_empty(chunks: Seq<Seq<u8>>) -> Seq<Seq<u8>>
    decreases chunks.len(),
{
    if chunks.len() == 0 {
        Seq::empty()
    } else {
        let rest = drop_empty(chunks.drop_last());
        if chunks.last().len() > 0 {
            rest.push(chunks.last())
        } else {
            rest
        }
    }
}

/// The decode function of the array domain: split on semicolons, drop
/// empty chunks, decode each remaining chunk as UTF-8 text; no chunks
/// at all means "no array".
pub open spec fn array_decoded(b: Seq<u8>) -> Result<Option<Seq<Seq<char>>>, EncodingError> {
    let segs = drop_empty(semi_chunks(b));
    if !(forall|i: int| 0 <= i < segs.len() ==> valid_utf8(#[trigger] segs[i])) {
        Err(EncodingError::InvalidUtf8)
    } else if segs.len() == 0 {
        Ok(None)
    } else {
        Ok(Some(Seq::new(segs.len(), |i: int| decode_utf8(segs[i]))))
    }
}

proof fn lemma_first_semi_at(b: Seq<u8>, p: int)
    requires
        0 <= p < b.len(),
        b[p] == 59u8,
        forall|i: int| 0 <= i < p ==> b[i] != 59u8,
    ensures
        first_semi(b) == p,
    decreases b.len(),
{
    if p > 0 {
        assert(b[0] != 59u8);
        let t = b.drop_first();
        assert(t[p - 1] == b[p]);
        assert(forall|i: int| 0 <= i < p - 1 ==> t[i] == b[i + 1] && b[i + 1] != 59u8);
        lemma_first_semi_at(t, p - 1);
    }
}

proof fn lemma_first_semi_none(b: Seq<u8>)
    requires
        forall|i: int| 0 <= i < b.len() ==> b[i] != 59u8,
    ensures
        first_semi(b) == -1,
    decreases b.len(),
{
    if b.len() > 0 {
        let t = b.drop_first();
        assert(forall|i: int| 0 <= i < t.len() ==> t[i] == b[i + 1]);
        lemma_first_semi_none(t);
    }
}

/// `drop_empty` distributes over concatenation.
proof fn lemma_drop_empty_concat(a: Seq<Seq<u8>>, b: Seq<Seq<u8>>)
    ensures
        drop_empty(a + b) == drop_empty(a) + drop_empty(b),
    decreases b.len(),
{
    if b.len() == 0 {
        assert(a + b =~= a);
        assert(drop_empty(a) + drop_empty(b) =~= drop_empty(a));
    } else {
        lemma_drop_empty_concat(a, b.drop_last());
        assert((a + b).drop_last() =~= a + b.drop_last());
        assert((a + b).last() == b.last());
        if b.last().len() > 0 {
            assert(drop_empty(a) + drop_empty(b) =~= (drop_empty(a) + drop_empty(
                b.drop_last(),
            )).push(b.last()));
        } else {
            assert(drop_empty(a) + drop_empty(b) =~= drop_empty(a) + drop_empty(b.drop_last()));
        }
    }
}

/// Split a delimited buffer into its text elements: `None` when there
/// are no elements, `InvalidUtf8` when some element is not UTF-8 text.
#[verifier::loop_isolation(false)]
pub fn split_array(bytes: Vec<u8>) -> (r: Result<Option<Vec<String>>, EncodingError>)
    ensures
        (match r {
            Ok(Some(vs)) => array_decoded(bytes@) == Ok::<Option<Seq<Seq<char>>>, EncodingError>(
                Some(vs.deep_view()),
            ) && vs@.len() > 0,
            Ok(None) => array_decoded(bytes@) == Ok::<Option<Seq<Seq<char>>>, EncodingError>(None),
            Err(e) => array_decoded(bytes@) == Err::<Option<Seq<Seq<char>>>, EncodingError>(e),
        }),
{
    let n = bytes.len();
    let mut out: Vec<String> = Vec::new();
    let mut c: usize = 0;
    let ghost mut done: Seq<Seq<u8>> = Seq::empty();
    proof {
        assert(bytes@.subrange(0, n as int) =~= bytes@);
        assert(semi_chunks(bytes@) =~= done + semi_chunks(bytes@.subrange(0, n as int)));
    }
    while c < n
        invariant
            0 <= c <= n,
            n == bytes@.len(),
            semi_chunks(bytes@) =~= done + semi_chunks(bytes@.subrange(c as int, n as int)),
            out@.len() == drop_empty(done).len(),
            forall|i: int|
                0 <= i < drop_empty(done).len() ==> valid_utf8(#[trigger] drop_empty(done)[i])
                    && out@[i]@ == decode_utf8(drop_empty(done)[i]),
        decreases n - c,
    {
        let ghost rem = bytes@.subrange(c as int, n as int);
        let mut e = c;
        while e < n && bytes[e] != 59u8
            invariant
                c <= e <= n,
                forall|j: int| c <= j < e ==> bytes@[j] != 59u8,
            decreases n - e,
        {
            e += 1;
        }
        proof {
            assert(forall|j: int| 0 <= j < rem.len() ==> rem[j] == bytes@[c + j]);
            if e < n {
                assert(rem[e - c] == 59u8);
                assert(forall|j: int| 0 <= j < e - c ==> rem[j] != 59u8);
                lemma_first_semi_at(rem, e - c);
            } else {
                assert(forall|j: int| 0 <= j < rem.len() ==> rem[j] != 59u8);
                lemma_first_semi_none(rem);
            }
        }
        let ghost chunk = rem.subrange(0, e - c);
        proof {
            if e < n {
                let tail = rem.subrange((e - c) + 1, rem.len() as int);
                assert(tail =~= bytes@.subrange(e + 1, n as int));
                assert(semi_chunks(rem) =~= seq![chunk] + semi_chunks(tail));
                assert(done + semi_chunks(rem) =~= done.push(chunk) + semi_chunks(tail));
            } else {
                assert(chunk =~= rem);
                assert(semi_chunks(rem) =~= seq![rem]);
                assert(done + semi_chunks(rem) =~= done.push(chunk) + semi_chunks(
                    bytes@.subrange(n as int, n as int),
                ));
            }
            assert(done.push(chunk).drop_last() =~= done);
            assert(drop_empty(done.push(chunk)) == (if chunk.len() > 0 {
                drop_empty(done).push(chunk)
            } else {
                drop_empty(done)
            }));
        }
        if e > c {
            let piece = slice_to_vec(vstd::slice::slice_subrange(bytes.as_slice(), c, e));
            proof {
                assert(piece@ =~= chunk);
            }
            match utf8_to_string(piece.as_slice()) {
                Some(s) => {
                    out.push(s);
                },
                None => {
                    proof {
                        done = done.push(chunk);
                        let segs = drop_empty(semi_chunks(bytes@));
                        let de = drop_empty(done);
                        lemma_drop_empty_concat(
                            done,
                            semi_chunks(bytes@.subrange((if e < n { e + 1int } else { n as int }), n as int)),
                        );
                        assert(segs == de + drop_empty(
                            semi_chunks(bytes@.subrange((if e < n { e + 1int } else { n as int }), n as int)),
                        ));
                        assert(segs[de.len() - 1] == chunk);
                        assert(!valid_utf8(chunk));
                    }
                    return Err(EncodingError::InvalidUtf8);
                },
            }
        }
        proof {
            done = done.push(chunk);
        }
        c = if e < n {
            e + 1
        } else {
            n
        };
    }
    proof {
        assert(bytes@.subrange(n as int, n as int) =~= Seq::<u8>::empty());
        assert(semi_chunks(bytes@) =~= done);
        let segs = drop_empty(semi_chunks(bytes@));
        assert(segs == drop_empty(done));
    }
    if out.len() == 0 {
        Ok(None)
    } else {
        proof {
            let segs = drop_empty(semi_chunks(bytes@));
            assert(out.deep_view() =~= Seq::new(segs.len(), |i: int| decode_utf8(segs[i])));
        }
        Ok(Some(out))
    }
}

/// A read capability for the delimited-array domain, with the same
/// append operator that grows the underlying buffer.
pub struct MockArrayStore {
    table: VersionedTable,
}

impl View for MockArrayStore {
    type V = Map<Seq<char>, Seq<(u64, Seq<u8>)>>;

    closed spec fn view(&self) -> Map<Seq<char>, Seq<(u64, Seq<u8>)>> {
        self.table@
    }
}

impl MockArrayStore {
    pub closed spec fn wf(&self) -> bool {
        self.table.wf()
    }

    pub fn new() -> (r: Self)
        ensures
            r.wf(),
            r@ == Map::<Seq<char>, Seq<(u64, Seq<u8>)>>::empty(),
    {
        MockArrayStore { table: VersionedTable::new() }
    }

    /// Append one element to the running delimited buffer of `key`.
    pub fn append(&mut self, ord: u64, key: &str, item: &str)
        requires
            old(self).wf(),
        ensures
            final(self).wf(),
            final(self)@ == (if old(self)@.contains_key(key@) {
                old(self)@.insert(
                    key@,
                    old(self)@[key@].update(0, (ord, old(self)@[key@][0].1 + delimited(item@))),
                )
            } else {
                old(self)@.insert(key@, single_entry(ord, delimited(item@)))
            }),
    {
        let mut piece = vstd::string::StrSliceExecFns::as_bytes_vec(item);
        piece.push(59u8);
        proof {
            assert(piece@ =~= delimited(item@));
        }
        self.table.extend_first(ord, key, piece);
    }

    /// The array recorded for `key` exactly at `ord`, decoded.
    pub fn get_at(&self, ord: u64, key: &str) -> (r: Result<Option<Vec<String>>, EncodingError>)
        requires
            self.wf(),
        ensures
            (match r {
                Ok(Some(vs)) => {
                    &&& self@.contains_key(key@)
                    &&& first_at(self@[key@], ord) matches Some(b) && array_decoded(b) == Ok::<
                        Option<Seq<Seq<char>>>,
                        EncodingError,
                    >(Some(vs.deep_view()))
                },
                Ok(None) => !self@.contains_key(key@) || first_at(self@[key@], ord) is None || (
                first_at(self@[key@], ord) matches Some(b) && array_decoded(b) == Ok::<
                    Option<Seq<Seq<char>>>,
                    EncodingError,
                >(None)),
                Err(e) => {
                    &&& self@.contains_key(key@)
                    &&& first_at(self@[key@], ord) matches Some(b) && array_decoded(b) == Err::<
                        Option<Seq<Seq<char>>>,
                        EncodingError,
                    >(e)
                },
            }),
    {
        match self.table.get_at(ord, key) {
            Some(b) => split_array(b),
            None => Ok(None),
        }
    }

    /// The most recent array of `key`, decoded.
    pub fn get_last(&self, key: &str) -> (r: Result<Option<Vec<String>>, EncodingError>)
        requires
            self.wf(),
        ensures
            (match r {
                Ok(Some(vs)) => self@.contains_key(key@) && array_decoded(self@[key@].last().1)
                    == Ok::<Option<Seq<Seq<char>>>, EncodingError>(Some(vs.deep_view())),
                Ok(None) => !self@.contains_key(key@) || array_decoded(self@[key@].last().1)
                    == Ok::<Option<Seq<Seq<char>>>, EncodingError>(None),
                Err(e) => self@.contains_key(key@) && array_decoded(self@[key@].last().1) == Err::<
                    Option<Seq<Seq<char>>>,
                    EncodingError,
                >(e),
            }),
    {
        match self.table.get_last(key) {
            Some(b) => split_array(b),
            None => Ok(None),
        }
    }

    /// The earliest array of `key`, decoded.
    pub fn get_first(&self, key: &str) -> (r: Result<Option<Vec<String>>, EncodingError>)
        requires
            self.wf(),
        ensures
            (match r {
                Ok(Some(vs)) => self@.contains_key(key@) && array_decoded(self@[key@][0].1)
                    == Ok::<Option<Seq<Seq<char>>>, EncodingError>(Some(vs.deep_view())),
                Ok(None) => !self@.contains_key(key@) || array_decoded(self@[key@][0].1) == Ok::<
                    Option<Seq<Seq<char>>>,
                    EncodingError,
                >(None),
                Err(e) => self@.contains_key(key@) && array_decoded(self@[key@][0].1) == Err::<
                    Option<Seq<Seq<char>>>,
                    EncodingError,
                >(e),
            }),
    {
        match self.table.get_first(key) {
            Some(b) => split_array(b),
            None => Ok(None),
        }
    }

    /// True exactly when some write recorded the ordinal `ord` for `key`.
    pub fn has_at(&self, ord: u64, key: &str) -> (r: bool)
        requires
            self.wf(),
        ensures
            r == (self@.contains_key(key@) && has_ordinal(self@[key@], ord)),
    {
        self.table.has_at(ord, key)
    }

    /// True when `key` has any history; never decodes.
    pub fn has_last(&self, key: &str) -> (r: bool)
        requires
            self.wf(),
        ensures
            r == self@.contains_key(key@),
    {
        self.table.has_key(key)
    }

    /// True when `key` has any history; never decodes.
    pub fn has_first(&self, key: &str) -> (r: bool)
        requires
            self.wf(),
        ensures
            r == self@.contains_key(key@),
    {
        self.table.has_key(key)
    }
}

/// A UTF-8 encoding is at least one byte per character.
proof fn lemma_encode_nonempty(item: Seq<char>)
    requires
        item.len() > 0,
    ensures
        encode_utf8(item).len() > 0,
{
    assert(encode_utf8(item) == encode_scalar(item[0] as u32) + encode_utf8(item.drop_first()));
    char_is_scalar(item[0]);
    assert(encode_scalar(item[0] as u32).len() >= 1);
}

/// Text without a semicolon encodes to bytes without the semicolon
/// byte: the delimiter cannot be forged from inside an element.
proof fn lemma_encode_no_semi(item: Seq<char>)
    requires
        forall|j: int| 0 <= j < item.len() ==> (#[trigger] item[j]) != ';',
    ensures
        forall|j: int| 0 <= j < encode_utf8(item).len() ==> (#[trigger] encode_utf8(item)[j])
            != 59u8,
    decreases item.len(),
{
    if item.len() > 0 {
        let c = item[0];
        let u = c as u32;
        char_is_scalar(c);
        assert(u != 59) by {
            if u == 59 {
                char_u32_cast(c, u);
                assert((59u32 as char) == ';');
            }
        }
        let e = encode_scalar(u);
        assert(forall|j: int| 0 <= j < e.len() ==> (#[trigger] e[j]) != 59u8) by {
            if vstd::utf8::has_width_1_encoding(u) {
                assert(e =~= seq![vstd::utf8::leading_byte_width_1(u)]);
                assert(vstd::utf8::leading_byte_width_1(u) != 59u8) by (bit_vector)
                    requires
                        u <= 0x7F,
                        u != 59,
                ;
            } else {
                assert(forall|j: int| 0 <= j < e.len() ==> (#[trigger] e[j]) >= 0x80u8) by {
                    lemma_multibyte_bytes_high(u);
                }
            }
        }
        let rest = item.drop_first();
        assert(forall|j: int| 0 <= j < rest.len() ==> (#[trigger] rest[j]) == item[j + 1]);
        lemma_encode_no_semi(rest);
        assert(encode_utf8(item) == e + encode_utf8(rest));
        assert(forall|j: int|
            0 <= j < encode_utf8(item).len() ==> (#[trigger] encode_utf8(item)[j]) == (if j
                < e.len() {
                e[j]
            } else {
                encode_utf8(rest)[j - e.len()]
            }));
    }
}

/// Every byte of a multi-byte UTF-8 encoding has its high bit set.
proof fn lemma_multibyte_bytes_high(u: u32)
    requires
        !vstd::utf8::has_width_1_encoding(u),
        vstd::utf8::is_scalar(u),
    ensures
        forall|j: int| 0 <= j < encode_scalar(u).len() ==> (#[trigger] encode_scalar(u)[j])
            >= 0x80u8,
{
    assert((0xC0u8 | ((u >> 6) & 0x1F) as u8) >= 0x80u8) by (bit_vector);
    assert((0xE0u8 | ((u >> 12) & 0x0F) as u8) >= 0x80u8) by (bit_vector);
    assert((0xF0u8 | ((u >> 18) & 0x7) as u8) >= 0x80u8) by (bit_vector);
    assert((0x80u8 | (u & 0x3F) as u8) >= 0x80u8) by (bit_vector);
    assert((0x80u8 | ((u >> 6) & 0x3F) as u8) >= 0x80u8) by (bit_vector);
    assert((0x80u8 | ((u >> 12) & 0x3F) as u8) >= 0x80u8) by (bit_vector);
}

/// A delimited buffer decomposes from the front.
proof fn lemma_delimited_all_first(items: Seq<Seq<char>>)
    requires
        items.len() > 0,
    ensures
        delimited_all(items) == delimited(items[0]) + delimited_all(items.drop_first()),
    decreases items.len(),
{
    if items.len() == 1 {
        assert(items.drop_last() =~= Seq::<Seq<char>>::empty());
        assert(items.drop_first() =~= Seq::<Seq<char>>::empty());
        assert(items.last() == items[0]);
        assert(delimited_all(items) == delimited_all(items.drop_last()) + delimited(items.last()));
        assert(delimited(items[0]) + delimited_all(items.drop_first()) =~= delimited(items[0]));
        assert(delimited_all(items.drop_last()) + delimited(items.last()) =~= delimited(items[0]));
    } else {
        let dl = items.drop_last();
        lemma_delimited_all_first(dl);
        assert(dl[0] == items[0]);
        assert(dl.drop_first() =~= items.drop_first().drop_last());
        assert(items.drop_first().last() == items.last());
        assert(delimited_all(items) == delimited_all(dl) + delimited(items.last()));
        assert(delimited_all(items.drop_first()) == delimited_all(items.drop_first().drop_last())
            + delimited(items.last()));
        assert((delimited(items[0]) + delimited_all(dl.drop_first())) + delimited(items.last())
            =~= delimited(items[0]) + (delimited_all(dl.drop_first()) + delimited(items.last())));
    }
}

/// Splitting a buffer of well-formed delimited elements recovers
/// exactly the elements' encodings, in order.
proof fn lemma_chunks_of_delimited(items: Seq<Seq<char>>)
    requires
        forall|i: int| 0 <= i < items.len() ==> (#[trigger] items[i]).len() > 0,
        forall|i: int, j: int|
            0 <= i < items.len() && 0 <= j < items[i].len() ==> (#[trigger] items[i][j]) != ';',
    ensures
        semi_chunks(delimited_all(items)) =~= Seq::new(
            items.len(),
            |i: int| encode_utf8(items[i]),
        ),
    decreases items.len(),
{
    if items.len() == 0 {
    } else {
        let x = items[0];
        let rest = items.drop_first();
        lemma_delimited_all_first(items);
        let b = delimited_all(items);
        let e = encode_utf8(x);
        assert(forall|j: int| 0 <= j < x.len() ==> (#[trigger] x[j]) != ';');
        lemma_encode_no_semi(x);
        assert(delimited(x) =~= e + seq![59u8]);
        assert(b =~= e + seq![59u8] + delimited_all(rest));
        assert(b[e.len() as int] == 59u8);
        assert(forall|j: int| 0 <= j < e.len() ==> #[trigger] b[j] == e[j] && e[j] != 59u8);
        lemma_first_semi_at(b, e.len() as int);
        assert(b.len() > 0) by {
            lemma_encode_nonempty(x);
        }
        assert(b.subrange(0, e.len() as int) =~= e);
        assert(b.subrange(e.len() as int + 1, b.len() as int) =~= delimited_all(rest));
        assert(semi_chunks(b) == seq![e] + semi_chunks(delimited_all(rest)));
        assert(forall|i: int| 0 <= i < rest.len() ==> (#[trigger] rest[i]) == items[i + 1]);
        lemma_chunks_of_delimited(rest);
    }
}

/// The chunks of well-formed delimited elements are all nonempty.
proof fn lemma_drop_empty_id(chunks: Seq<Seq<u8>>)
    requires
        forall|i: int| 0 <= i < chunks.len() ==> (#[trigger] chunks[i]).len() > 0,
    ensures
        drop_empty(chunks) =~= chunks,
    decreases chunks.len(),
{
    if chunks.len() > 0 {
        let dl = chunks.drop_last();
        assert(forall|i: int| 0 <= i < dl.len() ==> (#[trigger] dl[i]) == chunks[i]);
        lemma_drop_empty_id(dl);
    }
}

/// Round trip of the append operator: a buffer built by appending any
/// sequence of nonempty, semicolon-free elements decodes back to
/// exactly those elements, in order.
pub proof fn lemma_append_round_trip(items: Seq<Seq<char>>)
    requires
        items.len() > 0,
        forall|i: int| 0 <= i < items.len() ==> (#[trigger] items[i]).len() > 0,
        forall|i: int, j: int|
            0 <= i < items.len() && 0 <= j < items[i].len() ==> (#[trigger] items[i][j]) != ';',
    ensures
        array_decoded(delimited_all(items)) == Ok::<Option<Seq<Seq<char>>>, EncodingError>(
            Some(items),
        ),
{
    broadcast use vstd::utf8::encode_utf8_valid_utf8, vstd::utf8::encode_utf8_decode_utf8;

    lemma_chunks_of_delimited(items);
    let chunks = semi_chunks(delimited_all(items));
    assert(forall|i: int| 0 <= i < chunks.len() ==> (#[trigger] chunks[i]).len() > 0) by {
        assert forall|i: int| 0 <= i < chunks.len() implies (#[trigger] chunks[i]).len() > 0 by {
            assert(chunks[i] == encode_utf8(items[i]));
            lemma_encode_nonempty(items[i]);
        }
    }
    lemma_drop_empty_id(chunks);
    let segs = drop_empty(chunks);
    assert(segs =~= chunks);
    assert(forall|i: int| 0 <= i < segs.len() ==> valid_utf8(#[trigger] segs[i])) by {
        assert forall|i: int| 0 <= i < segs.len() implies valid_utf8(#[trigger] segs[i]) by {
            assert(segs[i] == encode_utf8(items[i]));
        }
    }
    assert(Seq::new(segs.len(), |i: int| decode_utf8(segs[i])) =~= items) by {
        assert forall|i: int| 0 <= i < segs.len() implies decode_utf8(segs[i]) == items[i] by {
            assert(segs[i] == encode_utf8(items[i]));
        }
    }
}

} // verus!
