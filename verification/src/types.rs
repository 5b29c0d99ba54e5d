//! Keys and the small index and version types of the storage format.

use vstd::prelude::*;
use vstd::string::StringSliceAdditionalSpecFns;

verus! {

/// Maximum key length: 15 bytes, followed by at least one NUL byte.
pub const MAX_KEY_LENGTH: usize = 15;

/// Size of a key as stored on flash, terminator included.
pub const MAX_KEY_NUL_TERMINATED_LENGTH: usize = 16;

/// A 16-byte key used for values and namespaces (at most 15 characters, NUL padded).
#[derive(Copy, Clone, PartialEq, Eq, PartialOrd, Ord, Hash, Debug)]
pub struct Key(pub [u8; 16]);

/// The stored bytes of `src` padded with NUL bytes up to the full key size.
pub open spec fn padded_key_bytes(src: Seq<u8>) -> Seq<u8> {
    src + Seq::new((16 - src.len()) as nat, |i: int| 0u8)
}

impl View for Key {
    type V = Seq<u8>;

    open spec fn view(&self) -> Seq<u8> {
        self.0@
    }
}

/// Number of bytes of `bytes` before the first NUL byte (the whole length if there is none).
pub open spec fn name_len(bytes: Seq<u8>) -> int
    decreases bytes.len(),
{
    if bytes.len() == 0 {
        0
    } else if bytes[0] == 0 {
        0
    } else {
        1 + name_len(bytes.drop_first())
    }
}

pub proof fn lemma_name_len(bytes: Seq<u8>)
    ensures
        0 <= name_len(bytes) <= bytes.len(),
        forall|i: int| 0 <= i < name_len(bytes) ==> bytes[i] != 0,
        name_len(bytes) < bytes.len() ==> bytes[name_len(bytes)] == 0,
    decreases bytes.len(),
{
    if bytes.len() > 0 && bytes[0] != 0 {
        lemma_name_len(bytes.drop_first());
        assert forall|i: int| 0 <= i < name_len(bytes) implies bytes[i] != 0 by {
            if i > 0 {
                assert(bytes[i] == bytes.drop_first()[i - 1]);
            }
        }
    }
}

/// A position is the name length exactly when everything before it is non-NUL and the
/// byte at it (if any) is NUL.
pub proof fn lemma_name_len_unique(bytes: Seq<u8>, n: int)
    requires
        0 <= n <= bytes.len(),
        forall|i: int| 0 <= i < n ==> bytes[i] != 0,
        n < bytes.len() ==> bytes[n] == 0,
    ensures
        name_len(bytes) == n,
    decreases bytes.len(),
{
    if bytes.len() > 0 && n > 0 {
        assert forall|i: int| 0 <= i < n - 1 implies bytes.drop_first()[i] != 0 by {
            assert(bytes.drop_first()[i] == bytes[i + 1]);
        }
        lemma_name_len_unique(bytes.drop_first(), n - 1);
    }
}

/// A key made from a name of at most 15 bytes without NUL bytes has that name.
pub proof fn lemma_padded_key_name(src: Seq<u8>)
    requires
        src.len() <= MAX_KEY_LENGTH,
        forall|i: int| 0 <= i < src.len() ==> src[i] != 0,
    ensures
        padded_key_bytes(src).len() == 16,
        name_len(padded_key_bytes(src)) == src.len(),
        padded_key_bytes(src).subrange(0, src.len() as int) == src,
{
    let b = padded_key_bytes(src);
    assert forall|i: int| 0 <= i < src.len() implies b[i] != 0 by {
        assert(b[i] == src[i]);
    }
    lemma_name_len_unique(b, src.len() as int);
    assert(b.subrange(0, src.len() as int) =~= src);
}

/// `core::str::from_utf8`: the standard library documents that it accepts exactly the
/// byte sequences that are valid UTF-8 and that the string it returns holds those bytes.
/// The contract claims this over vstd's `valid_utf8`; nothing else is stated.
#[verifier::external_body]
pub(crate) fn str_from_utf8(v: &[u8]) -> (r: Option<&str>)
    ensures
        vstd::utf8::valid_utf8(v@) ==> r is Some,
        r matches Some(s) ==> s.spec_bytes() == v@,
{
    core::str::from_utf8(v).ok()
}

impl Key {
    /// Creates a key from an array of at most 15 bytes, padding it with NUL bytes.
    pub fn from_array<const M: usize>(src: &[u8; M]) -> (key: Self)
        requires
            M <= MAX_KEY_LENGTH,
        ensures
            key@ == padded_key_bytes(src@),
    {
        Self::from_slice(src.as_slice())
    }

    /// Creates a key from a slice of at most 15 bytes, padding it with NUL bytes.
    pub fn from_slice(src: &[u8]) -> (key: Self)
        requires
            src@.len() <= MAX_KEY_LENGTH,
        ensures
            key@ == padded_key_bytes(src@),
    {
        let mut dst = [0u8; 16];
        let mut i: usize = 0;
        while i < src.len()
            invariant
                i <= src@.len() <= 15,
                dst@.len() == 16,
                forall|j: int| 0 <= j < i ==> dst@[j] == src@[j],
                forall|j: int| i <= j < 16 ==> dst@[j] == 0u8,
            decreases src@.len() - i,
        {
            dst[i] = src[i];
            i += 1;
        }
        assert(dst@ =~= padded_key_bytes(src@));
        Key(dst)
    }

    /// Creates a key from a string of at most 15 bytes, padding it with NUL bytes.
    pub fn from_str(s: &str) -> (key: Self)
        requires
            s.spec_bytes().len() <= MAX_KEY_LENGTH,
        ensures
            key@ == padded_key_bytes(s.spec_bytes()),
    {
        Self::from_slice(s.as_bytes())
    }

    /// The 16 stored bytes of the key.
    pub fn as_bytes(&self) -> (bytes: &[u8; 16])
        ensures
            bytes@ == self@,
    {
        &self.0
    }

    /// The bytes of the key before the first NUL byte.
    pub open spec fn name(&self) -> Seq<u8> {
        self@.subrange(0, name_len(self@))
    }

    /// Number of bytes before the first NUL byte.
    pub fn name_len(&self) -> (n: usize)
        ensures
            n == name_len(self@),
    {
        proof {
            lemma_name_len(self@);
        }
        let mut n: usize = 0;
        while n < 16 && self.0[n] != 0
            invariant
                n <= 16,
                self@.len() == 16,
                forall|i: int| 0 <= i < n ==> self@[i] != 0,
            decreases 16 - n,
        {
            n += 1;
        }
        proof {
            lemma_name_len_unique(self@, n as int);
        }
        n
    }

    /// Returns the key as a string slice, without its NUL padding.
    ///
    /// Keys are meant to hold UTF-8 text; this view exists only for such keys.
    pub fn as_str(&self) -> (s: &str)
        requires
            vstd::utf8::valid_utf8(self.name()),
        ensures
            s.spec_bytes() == self.name(),
    {
        let n = self.name_len();
        proof {
            lemma_name_len(self@);
        }
        let all = self.0.as_slice();
        let bytes = vstd::slice::slice_subrange(all, 0, n);
        assert(bytes@ =~= self.name());
        match str_from_utf8(bytes) {
            Some(s) => s,
            None => {
                assert(false);
                ""
            },
        }
    }

    /// Returns the key as an owned string, without its NUL padding.
    pub fn to_string(&self) -> (s: String)
        requires
            vstd::utf8::valid_utf8(self.name()),
        ensures
            vstd::utf8::encode_utf8(s@) == self.name(),
    {
        self.as_str().to_owned()
    }

    /// Whether the last stored byte is the NUL terminator, as every key on flash must be.
    pub fn is_terminated(&self) -> (b: bool)
        ensures
            b == (self@[15] == 0u8),
    {
        self.0[MAX_KEY_LENGTH] == 0
    }

    /// Byte-wise equality of two keys.
    pub fn equals(&self, other: &Key) -> (b: bool)
        ensures
            b == (self@ == other@),
    {
        let mut i: usize = 0;
        while i < 16
            invariant
                i <= 16,
                self@.len() == 16,
                other@.len() == 16,
                forall|j: int| 0 <= j < i ==> self@[j] == other@[j],
            decreases 16 - i,
        {
            if self.0[i] != other.0[i] {
                return false;
            }
            i += 1;
        }
        assert(self@ =~= other@);
        true
    }
}

/// Index of an item within a page's entries.
#[derive(Clone, Copy)]
pub struct ItemIndex(pub u8);

/// Sequence number of a page: pages written later carry larger numbers.
#[derive(Clone, Copy)]
pub struct PageSequence(pub u32);

/// Index of a namespace in the namespace table.
#[derive(Clone, Copy, PartialEq, Eq, Structural)]
pub struct NamespaceIndex(pub u8);

/// Index of a page in the list of used pages.
#[derive(Clone, Copy)]
pub struct PageIndex(pub usize);

/// Which chunk of a key an operation is about.
#[derive(Clone, Copy, PartialEq, Eq, Structural)]
pub enum ChunkIndex {
    /// The item that holds the key's value, whatever its type (chunk field 0xFF).
    Any,
    /// The index item of a blob (chunk field 0xFF).
    BlobIndex,
    /// A data chunk of a blob.
    BlobData(u8),
}

/// The chunk field that items of this chunk carry.
pub open spec fn chunk_field(c: ChunkIndex) -> u8 {
    match c {
        ChunkIndex::Any => 0xFF,
        ChunkIndex::BlobIndex => 0xFF,
        ChunkIndex::BlobData(idx) => idx,
    }
}

impl ChunkIndex {
    pub fn field(&self) -> (f: u8)
        ensures
            f == chunk_field(*self),
    {
        match self {
            ChunkIndex::Any => 0xFF,
            ChunkIndex::BlobIndex => 0xFF,
            ChunkIndex::BlobData(idx) => *idx,
        }
    }
}

/// Offset of the chunk numbers of one of the two versions of a blob: while a blob is
/// overwritten, the old and the new version live side by side under different offsets.
#[derive(Clone, Copy, PartialEq, Eq, Structural, Debug)]
pub enum VersionOffset {
    V0,
    V1,
}

/// The first chunk number of a version.
pub open spec fn version_base(v: VersionOffset) -> u8 {
    match v {
        VersionOffset::V0 => 0x00,
        VersionOffset::V1 => 0x80,
    }
}

/// The version that chunk number `value` belongs to.
pub open spec fn version_of(value: u8) -> VersionOffset {
    if value < 0x80 {
        VersionOffset::V0
    } else {
        VersionOffset::V1
    }
}

/// The other version.
pub open spec fn other_version(v: VersionOffset) -> VersionOffset {
    match v {
        VersionOffset::V0 => VersionOffset::V1,
        VersionOffset::V1 => VersionOffset::V0,
    }
}

impl VersionOffset {
    /// The other version.
    pub fn invert(&self) -> (v: VersionOffset)
        ensures
            v == other_version(*self),
    {
        if *self == VersionOffset::V0 {
            VersionOffset::V1
        } else {
            VersionOffset::V0
        }
    }

    /// The version that chunk number `value` belongs to.
    pub fn from_u8(value: u8) -> (v: VersionOffset)
        ensures
            v == version_of(value),
    {
        if value < 0x80 {
            VersionOffset::V0
        } else {
            VersionOffset::V1
        }
    }

    /// The first chunk number of this version.
    pub fn base(&self) -> (b: u8)
        ensures
            b == version_base(*self),
    {
        match self {
            VersionOffset::V0 => 0x00,
            VersionOffset::V1 => 0x80,
        }
    }
}

/// Inverting a version twice gives it back, and never gives the same version.
pub proof fn lemma_invert_involution(v: VersionOffset)
    ensures
        other_version(other_version(v)) == v,
        other_version(v) != v,
{
}

/// The version of a version's first chunk number is that version.
pub proof fn lemma_version_of_base(v: VersionOffset)
    ensures
        version_of(version_base(v)) == v,
{
}

} // verus!
