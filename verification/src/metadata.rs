//! Metadata of directory and file entries, and the content hashes that
//! name file contents.

use vstd::array::spec_array_fill_for_copy_type;
use vstd::prelude::*;
use vstd::std_specs::cmp::PartialEqSpecImpl;
use vstd::std_specs::convert::FromSpecImpl;
use vstd::string::StringExecFns;
use crate::hash::bytes_equal;
use crate::hash::chars_of;
use crate::hash::decode_hex;
use crate::hash::encode_hex;
use crate::hash::hex_bytes;
use crate::hash::hex_string;
use crate::hash::is_hex;

verus! {

/// A failure that a server reports to its client.
#[derive(Clone, Debug, PartialEq, Eq)]
pub struct ServerError {
    pub message: String,
    pub code: u64,
}

impl ServerError {
    /// A failure without a particular code.
    pub fn generic(message: &str) -> (r: Self)
        ensures
            r.message@ == message@,
            r.code == 0,
    {
        ServerError { message: String::from_str(message), code: 0 }
    }
}

/// All bytes are zero.
pub open spec fn all_zero(bytes: Seq<u8>) -> bool {
    forall|i: int| 0 <= i < bytes.len() ==> bytes[i] == 0
}

/// A SHA-1 content hash.
#[derive(Clone, Copy, Debug, Eq, Hash)]
pub struct Sha1(pub [u8; 20]);

impl PartialEq for Sha1 {
    fn eq(&self, other: &Self) -> (r: bool) {
        let r: bool = bytes_equal(&self.0, &other.0);
        proof {
            if r {
                assert(*self =~= *other);
            }
        }
        r
    }
}

impl PartialEqSpecImpl for Sha1 {
    open spec fn obeys_eq_spec() -> bool {
        true
    }

    open spec fn eq_spec(&self, other: &Self) -> bool {
        *self == *other
    }
}

impl Default for Sha1 {
    fn default() -> (r: Self)
        ensures
            all_zero(r.0@),
    {
        Sha1([0u8; 20])
    }
}

impl Sha1 {
    /// The number of bytes of the hash.
    pub fn len() -> (n: usize)
        ensures
            n == 20,
    {
        20
    }

    /// The hash with the given bytes.
    pub fn from_byte_array(bytes: [u8; 20]) -> (r: Self)
        ensures
            r.0 == bytes,
    {
        Sha1(bytes)
    }

    /// The bytes of the hash.
    pub fn into_byte_array(self) -> (r: [u8; 20])
        ensures
            r == self.0,
    {
        self.0
    }

    /// Reads the hash from 40 hexadecimal digits of either case.
    pub fn from_str(s: &str) -> (r: Result<Self, ServerError>)
        ensures
            r is Ok <==> (s@.len() == 40 && is_hex(s@)),
            r matches Ok(hash) ==> hash.0@ == hex_bytes(s@),
            r matches Err(e) ==> e.message@ == "invalid Sha1: expected 40 hexadecimal digits"@
                && e.code == 0,
    {
        let chars: Vec<char> = chars_of(s);
        match decode_hex::<20>(&chars) {
            Some(bytes) => Ok(Sha1(bytes)),
            None => Err(ServerError::generic("invalid Sha1: expected 40 hexadecimal digits")),
        }
    }

    /// The 40 lower-case hexadecimal digits of the hash.
    pub fn to_hex(&self) -> (r: String)
        ensures
            r@ == hex_string(self.0@),
    {
        encode_hex::<20>(&self.0)
    }
}

/// A SHA-256 content hash.
#[derive(Clone, Copy, Debug, Eq, Hash)]
pub struct Sha256(pub [u8; 32]);

impl PartialEq for Sha256 {
    fn eq(&self, other: &Self) -> (r: bool) {
        let r: bool = bytes_equal(&self.0, &other.0);
        proof {
            if r {
                assert(*self =~= *other);
            }
        }
        r
    }
}

impl PartialEqSpecImpl for Sha256 {
    open spec fn obeys_eq_spec() -> bool {
        true
    }

    open spec fn eq_spec(&self, other: &Self) -> bool {
        *self == *other
    }
}

impl Default for Sha256 {
    fn default() -> (r: Self)
        ensures
            all_zero(r.0@),
    {
        Sha256([0u8; 32])
    }
}

impl Sha256 {
    /// The number of bytes of the hash.
    pub fn len() -> (n: usize)
        ensures
            n == 32,
    {
        32
    }

    /// The hash with the given bytes.
    pub fn from_byte_array(bytes: [u8; 32]) -> (r: Self)
        ensures
            r.0 == bytes,
    {
        Sha256(bytes)
    }

    /// The bytes of the hash.
    pub fn into_byte_array(self) -> (r: [u8; 32])
        ensures
            r == self.0,
    {
        self.0
    }

    /// Reads the hash from 64 hexadecimal digits of either case.
    pub fn from_str(s: &str) -> (r: Result<Self, ServerError>)
        ensures
            r is Ok <==> (s@.len() == 64 && is_hex(s@)),
            r matches Ok(hash) ==> hash.0@ == hex_bytes(s@),
            r matches Err(e) ==> e.message@ == "invalid Sha256: expected 64 hexadecimal digits"@
                && e.code == 0,
    {
        let chars: Vec<char> = chars_of(s);
        match decode_hex::<32>(&chars) {
            Some(bytes) => Ok(Sha256(bytes)),
            None => Err(ServerError::generic("invalid Sha256: expected 64 hexadecimal digits")),
        }
    }

    /// The 64 lower-case hexadecimal digits of the hash.
    pub fn to_hex(&self) -> (r: String)
        ensures
            r@ == hex_string(self.0@),
    {
        encode_hex::<32>(&self.0)
    }
}

/// A seeded BLAKE3 content hash.
#[derive(Clone, Copy, Debug, Eq, Hash)]
pub struct Blake3(pub [u8; 32]);

impl PartialEq for Blake3 {
    fn eq(&self, other: &Self) -> (r: bool) {
        let r: bool = bytes_equal(&self.0, &other.0);
        proof {
            if r {
                assert(*self =~= *other);
            }
        }
        r
    }
}

impl PartialEqSpecImpl for Blake3 {
    open spec fn obeys_eq_spec() -> bool {
        true
    }

    open spec fn eq_spec(&self, other: &Self) -> bool {
        *self == *other
    }
}

impl Default for Blake3 {
    fn default() -> (r: Self)
        ensures
            all_zero(r.0@),
    {
        Blake3([0u8; 32])
    }
}

impl Blake3 {
    /// The number of bytes of the hash.
    pub fn len() -> (n: usize)
        ensures
            n == 32,
    {
        32
    }

    /// The hash with the given bytes.
    pub fn from_byte_array(bytes: [u8; 32]) -> (r: Self)
        ensures
            r.0 == bytes,
    {
        Blake3(bytes)
    }

    /// The bytes of the hash.
    pub fn into_byte_array(self) -> (r: [u8; 32])
        ensures
            r == self.0,
    {
        self.0
    }

    /// Reads the hash from 64 hexadecimal digits of either case.
    pub fn from_str(s: &str) -> (r: Result<Self, ServerError>)
        ensures
            r is Ok <==> (s@.len() == 64 && is_hex(s@)),
            r matches Ok(hash) ==> hash.0@ == hex_bytes(s@),
            r matches Err(e) ==> e.message@ == "invalid Blake3: expected 64 hexadecimal digits"@
                && e.code == 0,
    {
        let chars: Vec<char> = chars_of(s);
        match decode_hex::<32>(&chars) {
            Some(bytes) => Ok(Blake3(bytes)),
            None => Err(ServerError::generic("invalid Blake3: expected 64 hexadecimal digits")),
        }
    }

    /// The 64 lower-case hexadecimal digits of the hash.
    pub fn to_hex(&self) -> (r: String)
        ensures
            r@ == hex_string(self.0@),
    {
        encode_hex::<32>(&self.0)
    }
}

/// The BLAKE2 hash that names the content of a file.
#[derive(Clone, Copy, Debug, Eq, Hash)]
pub struct ContentId(pub [u8; 32]);

impl PartialEq for ContentId {
    fn eq(&self, other: &Self) -> (r: bool) {
        let r: bool = bytes_equal(&self.0, &other.0);
        proof {
            if r {
                assert(*self =~= *other);
            }
        }
        r
    }
}

impl PartialEqSpecImpl for ContentId {
    open spec fn obeys_eq_spec() -> bool {
        true
    }

    open spec fn eq_spec(&self, other: &Self) -> bool {
        *self == *other
    }
}

impl Default for ContentId {
    fn default() -> (r: Self)
        ensures
            all_zero(r.0@),
    {
        ContentId([0u8; 32])
    }
}

impl ContentId {
    /// The number of bytes of the hash.
    pub fn len() -> (n: usize)
        ensures
            n == 32,
    {
        32
    }

    /// The hash with the given bytes.
    pub fn from_byte_array(bytes: [u8; 32]) -> (r: Self)
        ensures
            r.0 == bytes,
    {
        ContentId(bytes)
    }

    /// The bytes of the hash.
    pub fn into_byte_array(self) -> (r: [u8; 32])
        ensures
            r == self.0,
    {
        self.0
    }

    /// Reads the hash from 64 hexadecimal digits of either case.
    pub fn from_str(s: &str) -> (r: Result<Self, ServerError>)
        ensures
            r is Ok <==> (s@.len() == 64 && is_hex(s@)),
            r matches Ok(hash) ==> hash.0@ == hex_bytes(s@),
            r matches Err(e) ==> e.message@ == "invalid ContentId: expected 64 hexadecimal digits"@
                && e.code == 0,
    {
        let chars: Vec<char> = chars_of(s);
        match decode_hex::<32>(&chars) {
            Some(bytes) => Ok(ContentId(bytes)),
            None => Err(ServerError::generic("invalid ContentId: expected 64 hexadecimal digits")),
        }
    }

    /// The 64 lower-case hexadecimal digits of the hash.
    pub fn to_hex(&self) -> (r: String)
        ensures
            r@ == hex_string(self.0@),
    {
        encode_hex::<32>(&self.0)
    }
}

/// The BLAKE2 hash that names a file system node.
#[derive(Clone, Copy, Debug, Eq, Hash)]
pub struct FsnodeId(pub [u8; 32]);

impl PartialEq for FsnodeId {
    fn eq(&self, other: &Self) -> (r: bool) {
        let r: bool = bytes_equal(&self.0, &other.0);
        proof {
            if r {
                assert(*self =~= *other);
            }
        }
        r
    }
}

impl PartialEqSpecImpl for FsnodeId {
    open spec fn obeys_eq_spec() -> bool {
        true
    }

    open spec fn eq_spec(&self, other: &Self) -> bool {
        *self == *other
    }
}

impl Default for FsnodeId {
    fn default() -> (r: Self)
        ensures
            all_zero(r.0@),
    {
        FsnodeId([0u8; 32])
    }
}

impl FsnodeId {
    /// The number of bytes of the hash.
    pub fn len() -> (n: usize)
        ensures
            n == 32,
    {
        32
    }

    /// The hash with the given bytes.
    pub fn from_byte_array(bytes: [u8; 32]) -> (r: Self)
        ensures
            r.0 == bytes,
    {
        FsnodeId(bytes)
    }

    /// The bytes of the hash.
    pub fn into_byte_array(self) -> (r: [u8; 32])
        ensures
            r == self.0,
    {
        self.0
    }

    /// Reads the hash from 64 hexadecimal digits of either case.
    pub fn from_str(s: &str) -> (r: Result<Self, ServerError>)
        ensures
            r is Ok <==> (s@.len() == 64 && is_hex(s@)),
            r matches Ok(hash) ==> hash.0@ == hex_bytes(s@),
            r matches Err(e) ==> e.message@ == "invalid FsnodeId: expected 64 hexadecimal digits"@
                && e.code == 0,
    {
        let chars: Vec<char> = chars_of(s);
        match decode_hex::<32>(&chars) {
            Some(bytes) => Ok(FsnodeId(bytes)),
            None => Err(ServerError::generic("invalid FsnodeId: expected 64 hexadecimal digits")),
        }
    }

    /// The 64 lower-case hexadecimal digits of the hash.
    pub fn to_hex(&self) -> (r: String)
        ensures
            r@ == hex_string(self.0@),
    {
        encode_hex::<32>(&self.0)
    }
}

/// Directory entry metadata. It holds nothing.
#[derive(Clone, Copy, Debug, PartialEq, Eq, Structural)]
pub struct DirectoryMetadata {}

impl Default for DirectoryMetadata {
    fn default() -> (r: Self)
        ensures
            r == (DirectoryMetadata {  }),
    {
        DirectoryMetadata {  }
    }
}

/// File entry metadata.
#[derive(Clone, Copy, Debug, PartialEq, Eq)]
pub struct FileMetadata {
    pub content_id: ContentId,
    pub size: u64,
    pub content_sha1: Sha1,
    pub content_sha256: Sha256,
    pub content_blake3: Blake3,
}

impl Default for FileMetadata {
    fn default() -> (r: Self)
        ensures
            r.size == 0,
            all_zero(r.content_id.0@),
            all_zero(r.content_sha1.0@),
            all_zero(r.content_sha256.0@),
            all_zero(r.content_blake3.0@),
    {
        FileMetadata {
            content_id: ContentId::default(),
            size: 0,
            content_sha1: Sha1::default(),
            content_sha256: Sha256::default(),
            content_blake3: Blake3::default(),
        }
    }
}

/// The part of the file metadata that is kept beside file contents.
#[derive(Clone, Copy, Debug, PartialEq, Eq)]
pub struct FileAuxData {
    pub total_size: u64,
    pub sha1: Sha1,
    pub blake3: Blake3,
}

impl From<FileMetadata> for FileAuxData {
    fn from(val: FileMetadata) -> (r: Self) {
        FileAuxData { total_size: val.size, sha1: val.content_sha1, blake3: val.content_blake3 }
    }
}

impl FromSpecImpl<FileMetadata> for FileAuxData {
    open spec fn obeys_from_spec() -> bool {
        true
    }

    open spec fn from_spec(val: FileMetadata) -> Self {
        aux_data_of(val)
    }
}

/// The auxiliary data that file metadata carries: its size and its SHA-1 and
/// BLAKE3 hashes.
pub open spec fn aux_data_of(val: FileMetadata) -> FileAuxData {
    FileAuxData { total_size: val.size, sha1: val.content_sha1, blake3: val.content_blake3 }
}

/// The file metadata that carries the given auxiliary data and has zero for
/// its other hashes.
pub open spec fn metadata_of(aux: FileAuxData) -> FileMetadata {
    FileMetadata {
        content_id: ContentId(spec_array_fill_for_copy_type::<u8, 32>(0u8)),
        size: aux.total_size,
        content_sha1: aux.sha1,
        content_sha256: Sha256(spec_array_fill_for_copy_type::<u8, 32>(0u8)),
        content_blake3: aux.blake3,
    }
}

impl From<FileAuxData> for FileMetadata {
    fn from(aux: FileAuxData) -> (r: Self) {
        FileMetadata {
            content_id: ContentId([0u8; 32]),
            size: aux.total_size,
            content_sha1: aux.sha1,
            content_sha256: Sha256([0u8; 32]),
            content_blake3: aux.blake3,
        }
    }
}

impl FromSpecImpl<FileAuxData> for FileMetadata {
    open spec fn obeys_from_spec() -> bool {
        true
    }

    open spec fn from_spec(aux: FileAuxData) -> Self {
        metadata_of(aux)
    }
}

/// File metadata made from auxiliary data carries that auxiliary data, and
/// its other hashes are zero.
pub proof fn lemma_aux_data_round_trip(aux: FileAuxData)
    ensures
        aux_data_of(metadata_of(aux)) == aux,
        all_zero(metadata_of(aux).content_id.0@),
        all_zero(metadata_of(aux).content_sha256.0@),
{
    broadcast use vstd::array::axiom_spec_array_fill_for_copy_type;

}

/// The kind of a file.
#[derive(Clone, Copy, Debug, PartialEq, Eq, Structural)]
pub enum FileType {
    Regular,
    Executable,
    Symlink,
}

impl Default for FileType {
    fn default() -> (r: Self)
        ensures
            r == FileType::Regular,
    {
        FileType::Regular
    }
}

/// A content hash of any of the kinds by which file contents can be asked
/// for.
#[derive(Clone, Copy, Debug, PartialEq, Eq, Hash)]
pub enum AnyFileContentId {
    ContentId(ContentId),
    Sha1(Sha1),
    Sha256(Sha256),
    SeededBlake3(Blake3),
}

impl Default for AnyFileContentId {
    fn default() -> (r: Self)
        ensures
            r matches AnyFileContentId::ContentId(id) && all_zero(id.0@),
    {
        AnyFileContentId::ContentId(ContentId::default())
    }
}

/// The kinds of content hash.
pub enum IdKind {
    ContentId,
    Sha1,
    Sha256,
    SeededBlake3,
}

/// Why a text is not a content hash.
pub enum ParseFailure {
    /// The text is not made of two parts with one `/` between them.
    Format,
    /// The part before the `/` names no kind of hash.
    IdType,
    /// The part after the `/` is not a hash of the kind named.
    Hash(IdKind),
}

/// The text holds exactly one `/`.
pub open spec fn has_one_slash(s: Seq<char>) -> bool {
    exists|i: int| is_only_slash(s, i)
}

/// Position `i` of the text holds a `/`, and no other position does.
pub open spec fn is_only_slash(s: Seq<char>, i: int) -> bool {
    &&& 0 <= i < s.len()
    &&& s[i] == '/'
    &&& forall|j: int| 0 <= j < s.len() && j != i ==> s[j] != '/'
}

/// The position of the `/` in a text that holds exactly one.
pub open spec fn slash_index(s: Seq<char>) -> int {
    choose|i: int| is_only_slash(s, i)
}

/// The kind of hash that a name stands for.
pub open spec fn id_kind(name: Seq<char>) -> Option<IdKind> {
    if name == "content_id"@ {
        Some(IdKind::ContentId)
    } else if name == "sha1"@ {
        Some(IdKind::Sha1)
    } else if name == "sha256"@ {
        Some(IdKind::Sha256)
    } else if name == "seeded_blake3"@ {
        Some(IdKind::SeededBlake3)
    } else {
        None
    }
}

/// The number of bytes of a hash of the given kind.
pub open spec fn kind_len(kind: IdKind) -> nat {
    match kind {
        IdKind::ContentId => 32,
        IdKind::Sha1 => 20,
        IdKind::Sha256 => 32,
        IdKind::SeededBlake3 => 32,
    }
}

/// What a text of the form `idtype/id` stands for: the kind that `idtype`
/// names, with the bytes that the hexadecimal digits of `id` write.
pub open spec fn parsed(s: Seq<char>) -> Result<(IdKind, Seq<u8>), ParseFailure> {
    if !has_one_slash(s) {
        Err(ParseFailure::Format)
    } else {
        let name = s.take(slash_index(s));
        let digits = s.skip(slash_index(s) + 1);
        match id_kind(name) {
            None => Err(ParseFailure::IdType),
            Some(kind) => if digits.len() == 2 * kind_len(kind) && is_hex(digits) {
                Ok((kind, hex_bytes(digits)))
            } else {
                Err(ParseFailure::Hash(kind))
            },
        }
    }
}

/// The message that tells a client why its text was refused.
pub open spec fn failure_text(failure: ParseFailure) -> &'static str {
    match failure {
        ParseFailure::Format => "AnyFileContentId parsing failure: format is 'idtype/id'",
        ParseFailure::IdType => "AnyFileContentId parsing failure: supported id types are: 'content_id', 'sha1', 'sha256' and 'seeded_blake3'",
        ParseFailure::Hash(IdKind::ContentId) => "invalid ContentId: expected 64 hexadecimal digits",
        ParseFailure::Hash(IdKind::Sha1) => "invalid Sha1: expected 40 hexadecimal digits",
        ParseFailure::Hash(IdKind::Sha256) => "invalid Sha256: expected 64 hexadecimal digits",
        ParseFailure::Hash(IdKind::SeededBlake3) => "invalid Blake3: expected 64 hexadecimal digits",
    }
}

/// Whether the characters are those of the string.
fn chars_equal(a: &Vec<char>, text: &str) -> (r: bool)
    ensures
        r == (a@ == text@),
{
    let b: Vec<char> = chars_of(text);
    if a.len() != b.len() {
        return false;
    }
    let mut i: usize = 0;
    while i < a.len()
        invariant
            b@ == text@,
            a@.len() == b@.len(),
            i <= a@.len(),
            forall|j: int| 0 <= j < i ==> a@[j] == b@[j],
        decreases a@.len() - i,
    {
        if a[i] != b[i] {
            return false;
        }
        i += 1;
    }
    assert(a@ =~= b@);
    true
}

/// The characters of `v` from position `from` up to, not including, `to`.
fn sub_chars(v: &Vec<char>, from: usize, to: usize) -> (r: Vec<char>)
    requires
        from <= to <= v@.len(),
    ensures
        r@ == v@.subrange(from as int, to as int),
{
    let mut out: Vec<char> = Vec::new();
    let mut i: usize = from;
    while i < to
        invariant
            from <= i <= to <= v@.len(),
            out@ == v@.subrange(from as int, i as int),
        decreases to - i,
    {
        out.push(v[i]);
        i += 1;
        assert(out@ =~= v@.subrange(from as int, i as int));
    }
    out
}

impl AnyFileContentId {
    /// The kind of the hash.
    pub open spec fn kind(self) -> IdKind {
        match self {
            AnyFileContentId::ContentId(_) => IdKind::ContentId,
            AnyFileContentId::Sha1(_) => IdKind::Sha1,
            AnyFileContentId::Sha256(_) => IdKind::Sha256,
            AnyFileContentId::SeededBlake3(_) => IdKind::SeededBlake3,
        }
    }

    /// The bytes of the hash.
    pub open spec fn bytes(self) -> Seq<u8> {
        match self {
            AnyFileContentId::ContentId(id) => id.0@,
            AnyFileContentId::Sha1(id) => id.0@,
            AnyFileContentId::Sha256(id) => id.0@,
            AnyFileContentId::SeededBlake3(id) => id.0@,
        }
    }

    /// Reads a content hash from a text of the form `idtype/id`, where
    /// `idtype` is one of `content_id`, `sha1`, `sha256` and `seeded_blake3`
    /// and `id` holds the hexadecimal digits of the hash.
    pub fn from_str(s: &str) -> (r: Result<AnyFileContentId, ServerError>)
        ensures
            match parsed(s@) {
                Ok((kind, bytes)) => r matches Ok(id) && id.kind() == kind && id.bytes() == bytes,
                Err(failure) => r matches Err(e) && e.message@ == failure_text(failure)@ && e.code
                    == 0,
            },
    {
        let chars: Vec<char> = chars_of(s);
        let mut first: Option<usize> = None;
        let mut i: usize = 0;
        while i < chars.len()
            invariant
                chars@ == s@,
                i <= chars@.len(),
                first is None ==> forall|j: int| 0 <= j < i ==> chars@[j] != '/',
                first matches Some(f) ==> f < i && chars@[f as int] == '/' && forall|j: int|
                    0 <= j < i && j != f ==> chars@[j] != '/',
            decreases chars@.len() - i,
        {
            if chars[i] == '/' {
                match first {
                    Some(f) => {
                        proof {
                            if has_one_slash(s@) {
                                let k = slash_index(s@);
                                assert(k == f || k == i);
                            }
                        }
                        return Err(
                            ServerError::generic(
                                "AnyFileContentId parsing failure: format is 'idtype/id'",
                            ),
                        );
                    },
                    None => {
                        first = Some(i);
                    },
                }
            }
            i += 1;
        }
        let at: usize = match first {
            Some(f) => f,
            None => {
                proof {
                    if has_one_slash(s@) {
                        let k = slash_index(s@);
                        assert(s@[k] == '/');
                    }
                }
                return Err(
                    ServerError::generic("AnyFileContentId parsing failure: format is 'idtype/id'"),
                );
            },
        };
        proof {
            assert(is_only_slash(s@, at as int));
            let k = slash_index(s@);
            assert(is_only_slash(s@, k));
            assert(k == at);
        }
        let name: Vec<char> = sub_chars(&chars, 0, at);
        let digits: Vec<char> = sub_chars(&chars, at + 1, chars.len());
        assert(name@ =~= s@.take(at as int));
        assert(digits@ =~= s@.skip(at + 1));
        if chars_equal(&name, "content_id") {
            match decode_hex::<32>(&digits) {
                Some(bytes) => Ok(AnyFileContentId::ContentId(ContentId(bytes))),
                None => Err(
                    ServerError::generic("invalid ContentId: expected 64 hexadecimal digits"),
                ),
            }
        } else if chars_equal(&name, "sha1") {
            match decode_hex::<20>(&digits) {
                Some(bytes) => Ok(AnyFileContentId::Sha1(Sha1(bytes))),
                None => Err(ServerError::generic("invalid Sha1: expected 40 hexadecimal digits")),
            }
        } else if chars_equal(&name, "sha256") {
            match decode_hex::<32>(&digits) {
                Some(bytes) => Ok(AnyFileContentId::Sha256(Sha256(bytes))),
                None => Err(ServerError::generic("invalid Sha256: expected 64 hexadecimal digits")),
            }
        } else if chars_equal(&name, "seeded_blake3") {
            match decode_hex::<32>(&digits) {
                Some(bytes) => Ok(AnyFileContentId::SeededBlake3(Blake3(bytes))),
                None => Err(ServerError::generic("invalid Blake3: expected 64 hexadecimal digits")),
            }
        } else {
            Err(
                ServerError::generic(
                    "AnyFileContentId parsing failure: supported id types are: 'content_id', 'sha1', 'sha256' and 'seeded_blake3'",
                ),
            )
        }
    }

    /// The lower-case hexadecimal digits of the hash, without its kind.
    pub fn to_hex(&self) -> (r: String)
        ensures
            r@ == hex_string(self.bytes()),
    {
        match self {
            AnyFileContentId::ContentId(id) => id.to_hex(),
            AnyFileContentId::Sha1(id) => id.to_hex(),
            AnyFileContentId::Sha256(id) => id.to_hex(),
            AnyFileContentId::SeededBlake3(id) => id.to_hex(),
        }
    }
}

} // verus!
