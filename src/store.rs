//! The content-addressed store: where an object lives, and what is written
//! there. The file operations themselves are left to the caller.

use vstd::prelude::*;
use vstd::string::StringSliceAdditionalSpecFns;
use vstd::utf8::{decode_utf8, encode_utf8_decode_utf8, is_char_boundary};
use crate::codec::encode_object;
use crate::hex::{as_chars, hex_lower};
use crate::object::{Blob, Commit, ObjectError, ObjectModel, ObjectStorage, Sha, Tree};

verus! {

broadcast use vstd::utf8::encode_utf8_valid_utf8;

/// The SHA-1 digest of `data`.
pub uninterp spec fn sha1_of(data: Seq<u8>) -> Seq<u8>;

/// The zlib stream that the default compression level makes of `data`.
pub uninterp spec fn zlib_of(data: Seq<u8>) -> Seq<u8>;

/// What a zlib stream decompresses to, or `None` where it is not one.
pub uninterp spec fn inflate_of(data: Seq<u8>) -> Option<Seq<u8>>;

/// Relies on sha1::Sha1::digest: the 20-byte SHA-1 digest of the input,
/// which depends on the input bytes alone.
#[verifier::external_body]
fn sha1_digest(data: &[u8]) -> (r: Sha)
    ensures
        r@ == sha1_of(data@),
{
    <sha1::Sha1 as sha1::Digest>::digest(data).into()
}

/// Relies on flate2::write::ZlibEncoder at `Compression::default()`, writing
/// into a `Vec`: what it produces depends on the input bytes alone, and it
/// does not fail (writes into a `Vec` always succeed, and the default
/// miniz_oxide back end reports no error on a fresh stream).
#[verifier::external_body]
fn zlib_compress(data: &[u8]) -> (r: Option<Vec<u8>>)
    ensures
        r is Some,
        r matches Some(v) ==> v@ == zlib_of(data@),
{
    let mut e = flate2::write::ZlibEncoder::new(Vec::new(), flate2::Compression::default());
    match std::io::Write::write_all(&mut e, data) {
        Ok(()) => e.finish().ok(),
        Err(_) => None,
    }
}

/// Relies on flate2::read::ZlibDecoder read to its end: the outcome depends
/// on the input bytes alone, and a stream that the zlib encoder produced
/// decompresses to the bytes it was made from.
#[verifier::external_body]
pub(crate) fn zlib_decompress(data: &[u8]) -> (r: Option<Vec<u8>>)
    ensures
        r is Some <==> inflate_of(data@) is Some,
        r matches Some(v) ==> inflate_of(data@) == Some(v@),
        r is Some || forall|x: Seq<u8>| #[trigger] zlib_of(x) != data@,
        r matches Some(v) ==> forall|x: Seq<u8>| #[trigger] zlib_of(x) == data@ ==> v@ == x,
{
    let mut out: Vec<u8> = Vec::new();
    let mut d = flate2::read::ZlibDecoder::new(data);
    match std::io::Read::read_to_end(&mut d, &mut out) {
        Ok(_) => Some(out),
        Err(_) => None,
    }
}

/// The directory that holds the objects.
pub open spec fn objects_dir() -> Seq<char> {
    ".git/objects/"@
}

/// The directory of an object: the objects directory and the first two hex digits.
pub open spec fn dir_for(hex: Seq<char>) -> Seq<char> {
    objects_dir() + hex.subrange(0, 2)
}

/// The file of an object: its directory, then the remaining hex digits.
pub open spec fn path_for(hex: Seq<char>) -> Seq<char> {
    dir_for(hex) + "/"@ + hex.subrange(2, hex.len() as int)
}

/// What storing an object amounts to: its hash, the directory to create if
/// absent, the file to write, and the compressed bytes to write there.
pub struct ObjectWrite {
    pub hash: Sha,
    pub dir: String,
    pub path: String,
    pub compressed: Vec<u8>,
}

/// `w` is the write that stores the encoded bytes `content`.
pub open spec fn stores(w: ObjectWrite, content: Seq<u8>) -> bool {
    let hex = as_chars(hex_lower(sha1_of(content)));
    &&& w.hash@ == sha1_of(content)
    &&& w.compressed@ == zlib_of(content)
    &&& w.dir@ == dir_for(hex)
    &&& w.path@ == path_for(hex)
}

impl ObjectStorage {
    /// The directory of the object whose hex hash is `hash`: the objects
    /// directory and the first two bytes of `hash`. A text shorter than two
    /// bytes, or whose second byte ends inside a character, is rejected.
    pub fn get_dir_for_hash(hash: &str) -> (r: Result<String, ObjectError>)
        ensures
            r is Ok <==> hash.spec_bytes().len() >= 2 && is_char_boundary(hash.spec_bytes(), 2),
            r matches Ok(d) ==> d@ == objects_dir() + decode_utf8(
                hash.spec_bytes().subrange(0, 2),
            ),
            r matches Err(e) ==> e == ObjectError::InvalidHashEncoding,
    {
        if hash.as_bytes().len() < 2 || !hash.is_char_boundary(2) {
            return Err(ObjectError::InvalidHashEncoding);
        }
        let (head, _) = hash.split_at(2);
        proof {
            encode_utf8_decode_utf8(head@);
        }
        let mut d = String::from_str(".git/objects/");
        d.append(head);
        Ok(d)
    }

    /// The file of the object whose hex hash is `hash`: its directory, then
    /// the bytes of `hash` after the first two. Rejected as for the directory.
    pub fn get_path_for_hash(hash: &str) -> (r: Result<String, ObjectError>)
        ensures
            r is Ok <==> hash.spec_bytes().len() >= 2 && is_char_boundary(hash.spec_bytes(), 2),
            r matches Ok(p) ==> p@ == objects_dir() + decode_utf8(hash.spec_bytes().subrange(0, 2))
                + "/"@ + decode_utf8(
                hash.spec_bytes().subrange(2, hash.spec_bytes().len() as int),
            ),
            r matches Err(e) ==> e == ObjectError::InvalidHashEncoding,
    {
        let mut p = Self::get_dir_for_hash(hash)?;
        let (_, tail) = hash.split_at(2);
        proof {
            encode_utf8_decode_utf8(tail@);
        }
        p.append("/");
        p.append(tail);
        Ok(p)
    }

    /// The directory and the file of the object whose hash renders as the
    /// 40 hex characters `hex`.
    pub(crate) fn dir_and_path(hex: &str) -> (r: (String, String))
        requires
            hex@.len() == 40,
        ensures
            r.0@ == dir_for(hex@),
            r.1@ == path_for(hex@),
    {
        let mut d = String::from_str(".git/objects/");
        d.append(hex.substring_char(0, 2));
        let mut p = String::from_str(".git/objects/");
        p.append(hex.substring_char(0, 2));
        p.append("/");
        p.append(hex.substring_char(2, 40));
        (d, p)
    }

    /// Hashes and compresses encoded object bytes, and says where they go.
    pub fn prepare_write(content: &[u8]) -> (r: Result<ObjectWrite, ObjectError>)
        ensures
            r is Ok,
            r matches Ok(w) ==> stores(w, content@),
    {
        let hash = sha1_digest(content);
        let compressed = match zlib_compress(content) {
            Some(c) => c,
            None => return Err(ObjectError::FilesystemError),
        };
        let hex = Self::sha_to_hex_string(&hash);
        let (dir, path) = Self::dir_and_path(hex.as_str());
        Ok(ObjectWrite { hash, dir, path, compressed })
    }
}

impl Blob {
    /// Encodes this blob and prepares its write.
    pub fn write_to_object_storage(&self) -> (r: Result<ObjectWrite, ObjectError>)
        ensures
            r is Ok,
            r matches Ok(w) ==> stores(w, encode_object(ObjectModel::Blob(self@))),
    {
        let bytes = self.encode();
        ObjectStorage::prepare_write(bytes.as_slice())
    }
}

impl Tree {
    /// Encodes this tree and prepares its write.
    pub fn write_to_object_storage(&self) -> (r: Result<ObjectWrite, ObjectError>)
        ensures
            r is Ok,
            r matches Ok(w) ==> stores(w, encode_object(ObjectModel::Tree(self@))),
    {
        let bytes = self.encode();
        ObjectStorage::prepare_write(bytes.as_slice())
    }
}

impl Commit {
    /// Encodes this commit and prepares its write.
    pub fn write_to_object_storage(&self) -> (r: Result<ObjectWrite, ObjectError>)
        requires
            self.author_timestamp.wf(),
        ensures
            r is Ok,
            r matches Ok(w) ==> stores(w, encode_object(ObjectModel::Commit(self@))),
    {
        let bytes = self.encode();
        ObjectStorage::prepare_write(bytes.as_slice())
    }
}

} // verus!
