//! The byte-codec layer: traits for lossless conversion between typed
//! values and byte buffers, together with the codec for UTF-8 text.
//!
//! Every supported value domain has exactly one canonical byte encoding.
//! `FromBytes::decoded` is the mathematical decode function of a domain;
//! `ToBytes::to_bytes` must produce bytes that decode back to the value
//! that was encoded, which makes the round trip part of every codec's
//! contract.

use vstd::prelude::*;
use vstd::string::StrSliceExecFns;
use vstd::utf8::decode_utf8;
use vstd::utf8::encode_utf8;
use vstd::utf8::valid_utf8;

verus! {

broadcast use vstd::utf8::encode_utf8_valid_utf8, vstd::utf8::encode_utf8_decode_utf8;

/// Failure modes of the byte-codec layer.
#[derive(Clone, Copy, Debug, PartialEq, Eq, Structural)]
pub enum EncodingError {
    /// The bytes are not valid UTF-8.
    InvalidUtf8,
    /// The bytes are valid text but do not parse in the requested domain.
    ParseFailure,
    /// An opaque structured message failed to decode.
    StructDecodeFailure,
}

/// Deserialisation from the canonical byte encoding of a value domain.
///
/// `decoded` fixes, at the specification level, which byte buffers are
/// well-formed for the domain and what value (as a mathematical view)
/// each well-formed buffer denotes.
pub trait FromBytes: View + Sized {
    /// Validity of a decoded or constructed value of this domain.
    spec fn inv(&self) -> bool;

    /// Validity of a mathematical view: the views that values of the
    /// domain can denote.
    spec fn vinv(v: Self::V) -> bool;

    /// The decode function of the domain: the view denoted by `bytes`,
    /// or the error that decoding reports.
    spec fn decoded(bytes: Seq<u8>) -> Result<Self::V, EncodingError>;

    /// A valid value denotes a valid view.
    proof fn lemma_inv_view(&self)
        requires
            self.inv(),
        ensures
            Self::vinv(self@),
    ;

    /// Decode a value from its canonical byte encoding.
    fn from_bytes(bytes: &[u8]) -> (r: Result<Self, EncodingError>)
        ensures
            (match r {
                Ok(v) => Self::decoded(bytes@) == Ok::<Self::V, EncodingError>(v@) && v.inv(),
                Err(e) => Self::decoded(bytes@) == Err::<Self::V, EncodingError>(e),
            }),
    ;
}

/// Serialisation to the canonical byte encoding of a value domain.
pub trait ToBytes: FromBytes {
    /// The canonical encoding of a domain value: a function of the
    /// mathematical view alone, so that equal values encode equally.
    spec fn encoded_of(v: Self::V) -> Seq<u8>;

    /// Encode the value.  The bytes produced decode back to the encoded
    /// value: encoding is lossless on every representable value.
    fn to_bytes(&self) -> (r: Vec<u8>)
        requires
            self.inv(),
        ensures
            r@ == Self::encoded_of(self@),
            Self::decoded(Self::encoded_of(self@)) == Ok::<Self::V, EncodingError>(self@),
    ;

    /// The round trip, as a law over views: decoding the canonical
    /// encoding of any valid view yields it back.
    proof fn lemma_encode_decodes(v: Self::V)
        requires
            Self::vinv(v),
        ensures
            Self::decoded(Self::encoded_of(v)) == Ok::<Self::V, EncodingError>(v),
    ;
}

/// Decode `bytes` in the domain `T`.
pub fn get_value_from_bytes<T: FromBytes>(bytes: &[u8]) -> (r: Result<T, EncodingError>)
    ensures
        (match r {
            Ok(v) => T::decoded(bytes@) == Ok::<T::V, EncodingError>(v@) && v.inv(),
            Err(e) => T::decoded(bytes@) == Err::<T::V, EncodingError>(e),
        }),
{
    T::from_bytes(bytes)
}

/// Encode `val` in its domain's canonical byte encoding.
pub fn convert_value_to_bytes<T: ToBytes>(val: &T) -> (r: Vec<u8>)
    requires
        val.inv(),
    ensures
        r@ == T::encoded_of(val@),
        T::decoded(T::encoded_of(val@)) == Ok::<T::V, EncodingError>(val@),
{
    val.to_bytes()
}

/// Deserialisation of an opaque structured message from its own wire
/// encoding.
///
/// The core does not interpret such messages; whoever implements this
/// trait (typically over a protobuf-style message type, outside the
/// verified core) supplies the codec, and `decoded_proto` stands for
/// its decode function.  Implementations are expected to decode with
/// `StructDecodeFailure` as the only failure mode.
pub trait FromBytesProto: Sized {
    /// The decode function of the message codec.
    spec fn decoded_proto(bytes: Seq<u8>) -> Result<Self, EncodingError>;

    /// Decode a message from bytes.
    fn from_bytes(bytes: &[u8]) -> (r: Result<Self, EncodingError>)
        ensures
            r == Self::decoded_proto(bytes@),
    ;
}

/// Serialisation of an opaque structured message.  Encoding must be
/// lossless: the producer's own decode returns the encoded message.
pub trait ToBytesProto: FromBytesProto {
    /// The canonical encoding of this message.
    spec fn encoded_proto(&self) -> Seq<u8>;

    /// Encode the message.
    fn to_bytes(&self) -> (r: Vec<u8>)
        ensures
            r@ == self.encoded_proto(),
            Self::decoded_proto(self.encoded_proto()) == Ok::<Self, EncodingError>(*self),
    ;
}

/// Relies on `String::from_utf8`: it succeeds exactly on valid UTF-8
/// input, and the characters of the result are the ones the bytes encode.
#[verifier::external_body]
pub(crate) fn utf8_to_string(bytes: &[u8]) -> (r: Option<String>)
    ensures
        (match r {
            Some(s) => valid_utf8(bytes@) && s@ == decode_utf8(bytes@),
            None => !valid_utf8(bytes@),
        }),
{
    String::from_utf8(bytes.to_vec()).ok()
}

impl FromBytes for String {
    open spec fn inv(&self) -> bool {
        true
    }

    open spec fn vinv(v: Seq<char>) -> bool {
        true
    }

    proof fn lemma_inv_view(&self) {
    }

    open spec fn decoded(bytes: Seq<u8>) -> Result<Seq<char>, EncodingError> {
        if valid_utf8(bytes) {
            Ok(decode_utf8(bytes))
        } else {
            Err(EncodingError::InvalidUtf8)
        }
    }

    fn from_bytes(bytes: &[u8]) -> (r: Result<Self, EncodingError>) {
        match utf8_to_string(bytes) {
            Some(s) => Ok(s),
            None => Err(EncodingError::InvalidUtf8),
        }
    }
}

impl ToBytes for String {
    open spec fn encoded_of(v: Seq<char>) -> Seq<u8> {
        encode_utf8(v)
    }

    fn to_bytes(&self) -> (r: Vec<u8>) {
        self.as_str().as_bytes_vec()
    }

    proof fn lemma_encode_decodes(v: Seq<char>) {
    }
}

} // verus!
