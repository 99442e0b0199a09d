//! The payload datatype of the cache: inline text, inline bytes, or a finite
//! byte stream paired with an optional declared length. The stream variant
//! models a forward-only, non-restartable transfer by the bytes it yields;
//! its declared length is what a bounded cache accounts, and it is required
//! for insertion into such a cache.

use vstd::prelude::*;
use vstd::string::StrSliceExecFns;

verus! {

#[verifier::external_type_specification]
#[verifier::external_body]
pub struct ExBytes(bytes::Bytes);

/// The bytes a `bytes::Bytes` buffer holds, in order.
pub uninterp spec fn bytes_content(b: bytes::Bytes) -> Seq<u8>;

/// Relies on `bytes::Bytes::from(Vec<u8>)`: the buffer holds exactly the
/// vector's bytes.
#[verifier::external_body]
pub fn bytes_from_vec(v: Vec<u8>) -> (r: bytes::Bytes)
    ensures
        bytes_content(r) == v@,
{
    bytes::Bytes::from(v)
}

/// Relies on `bytes::Bytes::len`: the number of bytes in the buffer.
#[verifier::external_body]
pub fn bytes_len(b: &bytes::Bytes) -> (r: usize)
    ensures
        r == bytes_content(*b).len(),
{
    b.len()
}

/// Relies on `<[u8]>::to_vec` reached through `Bytes`'s deref to a byte
/// slice: the vector holds exactly the buffer's bytes.
#[verifier::external_body]
pub fn bytes_to_vec(b: &bytes::Bytes) -> (r: Vec<u8>)
    ensures
        r@ == bytes_content(*b),
{
    b.to_vec()
}

/// A cache payload.
pub enum CacheData {
    /// Inline text.
    TextData(String),
    /// Inline bytes.
    BytesData(bytes::Bytes),
    /// A finite byte stream, modelled by the bytes it yields, and the length
    /// declared for it by the producer (which need not match).
    ByteStream(Vec<u8>, Option<u64>),
}

impl CacheData {
    /// The bytes of the payload: text encodes as UTF-8, a stream is the bytes
    /// it yields.
    pub open spec fn spec_content(self) -> Seq<u8> {
        match self {
            CacheData::TextData(s) => vstd::utf8::encode_utf8(s@),
            CacheData::BytesData(b) => bytes_content(b),
            CacheData::ByteStream(v, _) => v@,
        }
    }

    /// Whether `len` is defined: a stream must have a declared length.
    pub open spec fn spec_has_known_len(self) -> bool {
        match self {
            CacheData::ByteStream(_, l) => l is Some,
            _ => true,
        }
    }

    /// What `len` returns: the payload size in bytes, except that a stream
    /// reports its declared length.
    pub open spec fn spec_len(self) -> int {
        match self {
            CacheData::TextData(s) => vstd::utf8::encode_utf8(s@).len() as int,
            CacheData::BytesData(b) => bytes_content(b).len() as int,
            CacheData::ByteStream(_, l) => l->Some_0 as int,
        }
    }

    /// Whether the payload's size is known: a stream must declare one.
    pub fn has_known_len(&self) -> (r: bool)
        ensures
            r == self.spec_has_known_len(),
    {
        match self {
            CacheData::ByteStream(_, l) => l.is_some(),
            _ => true,
        }
    }

    /// The accounted size of the payload. For text and bytes this is the
    /// byte length; for a stream it is the declared length.
    pub fn len(&self) -> (r: crate::CacheSizeType)
        requires
            self.spec_has_known_len(),
        ensures
            r == self.spec_len(),
    {
        match self {
            CacheData::TextData(s) => s.as_str().as_bytes_vec().len() as u64,
            CacheData::BytesData(b) => bytes_len(b) as u64,
            CacheData::ByteStream(_, l) => match l {
                Some(n) => *n,
                None => 0,
            },
        }
    }

    /// Consumes the payload into its bytes; a stream is drained to completion.
    pub fn into_vec_u8(self) -> (r: Vec<u8>)
        ensures
            r@ == self.spec_content(),
    {
        match self {
            CacheData::TextData(s) => s.as_str().as_bytes_vec(),
            CacheData::BytesData(b) => bytes_to_vec(&b),
            CacheData::ByteStream(v, _) => v,
        }
    }
}

} // verus!
