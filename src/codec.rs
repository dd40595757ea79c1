//! The canonical encoding of objects: `"<type> <length>\0"` followed by the payload.

use vstd::prelude::*;
use vstd::string::StringSliceAdditionalSpecFns;
use vstd::utf8::{decode_utf8, valid_utf8};
use crate::hex::{as_chars, hex_bytes, hex_lower};
use crate::object::{
    Blob, ObjectError, Commit, CommitModel, CommitTimestamp, EntryModel, GitObject, ObjectModel, ObjectStorage,
    Tree, TreeEntry, TreeEntryPermission,
};
use crate::text::{copy_range, dec, digit_byte, push_bytes, push_decimal};

verus! {

/// The type tag `blob`.
pub open spec fn blob_tag() -> Seq<u8> {
    seq![98u8, 108, 111, 98]
}

/// The type tag `tree`.
pub open spec fn tree_tag() -> Seq<u8> {
    seq![116u8, 114, 101, 101]
}

/// The type tag `commit`.
pub open spec fn commit_tag() -> Seq<u8> {
    seq![99u8, 111, 109, 109, 105, 116]
}

/// The header that precedes a payload of `len` bytes.
pub open spec fn header(tag: Seq<u8>, len: nat) -> Seq<u8> {
    tag + seq![32u8] + dec(len) + seq![0u8]
}

/// A payload with its header.
pub open spec fn framed(tag: Seq<u8>, payload: Seq<u8>) -> Seq<u8> {
    header(tag, payload.len()) + payload
}

/// The mode string of a tree entry.
pub open spec fn mode_text(p: TreeEntryPermission) -> Seq<u8> {
    match p {
        TreeEntryPermission::Directory => seq![52u8, 48, 48, 48, 48],
        TreeEntryPermission::RegularFile => seq![49u8, 48, 48, 54, 52, 52],
        TreeEntryPermission::SymbolicLink => seq![49u8, 50, 48, 48, 48, 48],
        TreeEntryPermission::Executable => seq![49u8, 48, 48, 55, 53, 53],
    }
}

impl TreeEntryPermission {
    /// The mode string, as bytes.
    pub fn mode_bytes(&self) -> (r: Vec<u8>)
        ensures
            r@ == mode_text(*self),
    {
        let mut r: Vec<u8> = Vec::new();
        match self {
            TreeEntryPermission::Directory => push_bytes(&mut r, &[52u8, 48, 48, 48, 48]),
            TreeEntryPermission::RegularFile => push_bytes(&mut r, &[49u8, 48, 48, 54, 52, 52]),
            TreeEntryPermission::SymbolicLink => push_bytes(&mut r, &[49u8, 50, 48, 48, 48, 48]),
            TreeEntryPermission::Executable => push_bytes(&mut r, &[49u8, 48, 48, 55, 53, 53]),
        }
        proof {
            assert(r@ =~= mode_text(*self));
        }
        r
    }

    /// The mode string, as text.
    pub fn to_string_repr(&self) -> (r: String)
        ensures
            r@ == as_chars(mode_text(*self)),
    {
        let r = match self {
            TreeEntryPermission::Directory => "40000",
            TreeEntryPermission::RegularFile => "100644",
            TreeEntryPermission::SymbolicLink => "120000",
            TreeEntryPermission::Executable => "100755",
        };
        proof {
            reveal_strlit("40000");
            reveal_strlit("100644");
            reveal_strlit("120000");
            reveal_strlit("100755");
            assert(r@ =~= as_chars(mode_text(*self)));
        }
        r.to_owned()
    }
}

/// One entry as it stands in a tree payload.
pub open spec fn entry_bytes(e: EntryModel) -> Seq<u8> {
    mode_text(e.permission) + seq![32u8] + e.name + seq![0u8] + e.hash
}

/// The payload of a tree: its entries' encodings, in order.
pub open spec fn tree_payload(es: Seq<EntryModel>) -> Seq<u8>
    decreases es.len(),
{
    if es.len() == 0 {
        Seq::empty()
    } else {
        tree_payload(es.drop_last()) + entry_bytes(es.last())
    }
}

/// The `+HHMM` / `-HHMM` rendering of an offset in minutes.
pub open spec fn tz_text(tz: i16) -> Seq<u8> {
    let a: int = if tz < 0 {
        -tz
    } else {
        tz as int
    };
    let h = a / 60;
    let m = a % 60;
    seq![
        if tz < 0 {
            45u8
        } else {
            43u8
        },
        digit_byte((h / 10) as nat),
        digit_byte((h % 10) as nat),
        digit_byte((m / 10) as nat),
        digit_byte((m % 10) as nat),
    ]
}

/// `name <email> seconds +HHMM`.
pub open spec fn ident_text(name: Seq<u8>, email: Seq<u8>, ts: CommitTimestamp) -> Seq<u8> {
    name + seq![32u8, 60] + email + seq![62u8, 32] + dec(ts.seconds as nat) + seq![32u8] + tz_text(
        ts.timezone_offset,
    )
}

/// `parent <hex>\n` for each parent, in order.
pub open spec fn parent_lines(ps: Seq<Seq<u8>>) -> Seq<u8>
    decreases ps.len(),
{
    if ps.len() == 0 {
        Seq::empty()
    } else {
        parent_lines(ps.drop_last()) + seq![112u8, 97, 114, 101, 110, 116, 32] + hex_lower(ps.last())
            + seq![10u8]
    }
}

/// The payload of a commit: tree line, parent lines, author and committer
/// lines, a blank line, the message and a final newline.
pub open spec fn commit_payload(c: CommitModel) -> Seq<u8> {
    let id = ident_text(c.author_name, c.author_email, c.timestamp);
    tree_tag() + seq![32u8] + hex_lower(c.tree) + seq![10u8] + parent_lines(c.parents) + seq![
        97u8,
        117,
        116,
        104,
        111,
        114,
        32,
    ] + id + seq![10u8] + seq![99u8, 111, 109, 109, 105, 116, 116, 101, 114, 32] + id + seq![10u8]
        + seq![10u8] + c.message + seq![10u8]
}

/// The type tag of an object.
pub open spec fn object_tag(o: ObjectModel) -> Seq<u8> {
    match o {
        ObjectModel::Blob(_) => blob_tag(),
        ObjectModel::Tree(_) => tree_tag(),
        ObjectModel::Commit(_) => commit_tag(),
    }
}

/// The payload of an object.
pub open spec fn object_payload(o: ObjectModel) -> Seq<u8> {
    match o {
        ObjectModel::Blob(p) => p,
        ObjectModel::Tree(es) => tree_payload(es),
        ObjectModel::Commit(c) => commit_payload(c),
    }
}

/// The canonical encoding of an object: header and payload.
pub open spec fn encode_object(o: ObjectModel) -> Seq<u8> {
    framed(object_tag(o), object_payload(o))
}

/// Appends the header for a payload of `len` bytes to `out`.
pub fn push_header(out: &mut Vec<u8>, tag: &[u8], len: usize)
    ensures
        final(out)@ == old(out)@ + header(tag@, len as nat),
{
    push_bytes(out, tag);
    out.push(32u8);
    push_decimal(out, len as u64);
    out.push(0u8);
    proof {
        assert(final(out)@ =~= old(out)@ + header(tag@, len as nat));
    }
}

/// Frames a payload with its header.
pub fn frame(tag: &[u8], payload: &[u8]) -> (r: Vec<u8>)
    ensures
        r@ == framed(tag@, payload@),
{
    let mut r: Vec<u8> = Vec::new();
    push_header(&mut r, tag, payload.len());
    push_bytes(&mut r, payload);
    proof {
        assert(r@ =~= framed(tag@, payload@));
    }
    r
}

impl ObjectStorage {
    /// The header `"<type> <length>\0"` for a payload of `length` bytes.
    pub fn header_for_content_length(header_type: &str, length: usize) -> (r: Vec<u8>)
        ensures
            r@ == header(header_type.spec_bytes(), length as nat),
    {
        let mut r: Vec<u8> = Vec::new();
        push_header(&mut r, header_type.as_bytes(), length);
        proof {
            assert(r@ =~= header(header_type.spec_bytes(), length as nat));
        }
        r
    }
}

impl TreeEntry {
    /// Appends this entry's encoding to `out`.
    pub fn push_encoding(&self, out: &mut Vec<u8>)
        ensures
            final(out)@ == old(out)@ + entry_bytes(self@),
    {
        let mode = self.permission.mode_bytes();
        push_bytes(out, mode.as_slice());
        out.push(32u8);
        push_bytes(out, self.name.as_slice());
        out.push(0u8);
        push_bytes(out, self.hash.as_slice());
        proof {
            assert(final(out)@ =~= old(out)@ + entry_bytes(self@));
        }
    }

    /// The 40-character lowercase hex rendering of the referenced hash.
    pub fn to_hash_hex_string(&self) -> (r: String)
        ensures
            r@ == as_chars(hex_lower(self.hash@)),
    {
        ObjectStorage::sha_to_hex_string(&self.hash)
    }
}

impl Tree {
    /// The tree payload: each entry's encoding, in the order held.
    pub fn encode_payload(&self) -> (r: Vec<u8>)
        ensures
            r@ == tree_payload(self@),
    {
        let mut r: Vec<u8> = Vec::new();
        let mut i: usize = 0;
        while i < self.entries.len()
            invariant
                i <= self.entries@.len(),
                r@ == tree_payload(self@.subrange(0, i as int)),
            decreases self.entries@.len() - i,
        {
            self.entries[i].push_encoding(&mut r);
            proof {
                assert(self@.subrange(0, i + 1).drop_last() =~= self@.subrange(0, i as int));
            }
            i = i + 1;
        }
        proof {
            assert(self@.subrange(0, i as int) =~= self@);
        }
        r
    }

    /// The canonical encoding of this tree.
    pub fn encode(&self) -> (r: Vec<u8>)
        ensures
            r@ == encode_object(ObjectModel::Tree(self@)),
    {
        let payload = self.encode_payload();
        frame(&[116u8, 114, 101, 101], payload.as_slice())
    }
}

/// Relies on std's `String::from_utf8`: it succeeds exactly on valid UTF-8,
/// and the string then holds the characters that the bytes encode.
#[verifier::external_body]
fn utf8_to_string(bytes: Vec<u8>) -> (r: Option<String>)
    ensures
        r is Some <==> valid_utf8(bytes@),
        r matches Some(s) ==> s@ == decode_utf8(bytes@),
{
    String::from_utf8(bytes).ok()
}

impl Blob {
    /// A blob holding a copy of `content`.
    pub fn from(content: &[u8]) -> (r: Blob)
        ensures
            r@ == content@,
    {
        let mut c: Vec<u8> = Vec::new();
        push_bytes(&mut c, content);
        Blob { content: c }
    }

    /// The blob's bytes read as UTF-8 text; other bytes are `MalformedObject`.
    pub fn as_str(&self) -> (r: Result<String, ObjectError>)
        ensures
            r is Ok <==> valid_utf8(self@),
            r matches Ok(s) ==> s@ == decode_utf8(self@),
            r matches Err(e) ==> e == ObjectError::MalformedObject,
    {
        let bytes = copy_range(self.content.as_slice(), 0, self.content.len());
        proof {
            assert(bytes@ =~= self@);
        }
        match utf8_to_string(bytes) {
            Some(s) => Ok(s),
            None => Err(ObjectError::MalformedObject),
        }
    }

    /// The canonical encoding of this blob.
    pub fn encode(&self) -> (r: Vec<u8>)
        ensures
            r@ == encode_object(ObjectModel::Blob(self@)),
    {
        frame(&[98u8, 108, 111, 98], self.content.as_slice())
    }
}

/// Appends the four-digit `HHMM` rendering, with its sign, to `out`.
fn push_timezone(out: &mut Vec<u8>, tz: i16)
    requires
        -6000 < tz < 6000,
    ensures
        final(out)@ == old(out)@ + tz_text(tz),
{
    let a: u16 = if tz < 0 {
        (0i32 - tz as i32) as u16
    } else {
        tz as u16
    };
    let h: u16 = a / 60;
    let m: u16 = a % 60;
    out.push(if tz < 0 {
        45u8
    } else {
        43u8
    });
    out.push(48u8 + (h / 10) as u8);
    out.push(48u8 + (h % 10) as u8);
    out.push(48u8 + (m / 10) as u8);
    out.push(48u8 + (m % 10) as u8);
    proof {
        assert(final(out)@ =~= old(out)@ + tz_text(tz));
    }
}

impl Commit {
    /// Appends `name <email> seconds +HHMM` to `out`.
    fn push_ident(&self, out: &mut Vec<u8>)
        requires
            self.author_timestamp.wf(),
        ensures
            final(out)@ == old(out)@ + ident_text(
                self@.author_name,
                self@.author_email,
                self@.timestamp,
            ),
    {
        push_bytes(out, self.author.name.as_slice());
        push_bytes(out, &[32u8, 60]);
        push_bytes(out, self.author.email.as_slice());
        push_bytes(out, &[62u8, 32]);
        push_decimal(out, self.author_timestamp.seconds);
        out.push(32u8);
        push_timezone(out, self.author_timestamp.timezone_offset);
        proof {
            assert(final(out)@ =~= old(out)@ + ident_text(
                self@.author_name,
                self@.author_email,
                self@.timestamp,
            ));
        }
    }

    /// The commit payload.
    pub fn encode_payload(&self) -> (r: Vec<u8>)
        requires
            self.author_timestamp.wf(),
        ensures
            r@ == commit_payload(self@),
    {
        let mut r: Vec<u8> = Vec::new();
        push_bytes(&mut r, &[116u8, 114, 101, 101, 32]);
        let tree_hex = hex_bytes(&self.tree);
        push_bytes(&mut r, tree_hex.as_slice());
        r.push(10u8);
        let ghost prefix = r@;
        let mut i: usize = 0;
        while i < self.parents.len()
            invariant
                i <= self.parents@.len(),
                r@ == prefix + parent_lines(self@.parents.subrange(0, i as int)),
            decreases self.parents@.len() - i,
        {
            push_bytes(&mut r, &[112u8, 97, 114, 101, 110, 116, 32]);
            let parent_hex = hex_bytes(&self.parents[i]);
            push_bytes(&mut r, parent_hex.as_slice());
            r.push(10u8);
            proof {
                assert(self@.parents.subrange(0, i + 1).drop_last() =~= self@.parents.subrange(
                    0,
                    i as int,
                ));
                assert(r@ =~= prefix + parent_lines(self@.parents.subrange(0, i + 1)));
            }
            i = i + 1;
        }
        proof {
            assert(self@.parents.subrange(0, i as int) =~= self@.parents);
        }
        push_bytes(&mut r, &[97u8, 117, 116, 104, 111, 114, 32]);
        self.push_ident(&mut r);
        r.push(10u8);
        push_bytes(&mut r, &[99u8, 111, 109, 109, 105, 116, 116, 101, 114, 32]);
        self.push_ident(&mut r);
        r.push(10u8);
        r.push(10u8);
        push_bytes(&mut r, self.message.as_slice());
        r.push(10u8);
        proof {
            assert(r@ =~= commit_payload(self@));
        }
        r
    }

    /// The canonical encoding of this commit.
    pub fn encode(&self) -> (r: Vec<u8>)
        requires
            self.author_timestamp.wf(),
        ensures
            r@ == encode_object(ObjectModel::Commit(self@)),
    {
        let payload = self.encode_payload();
        frame(&[99u8, 111, 109, 109, 105, 116], payload.as_slice())
    }
}

impl GitObject {
    /// Whether the object can be encoded: a commit's offset must fit `HHMM`.
    pub open spec fn wf(&self) -> bool {
        match self {
            GitObject::Commit(c) => c.author_timestamp.wf(),
            _ => true,
        }
    }

    /// The canonical encoding of this object.
    pub fn encode(&self) -> (r: Vec<u8>)
        requires
            self.wf(),
        ensures
            r@ == encode_object(self@),
    {
        match self {
            GitObject::Blob(b) => b.encode(),
            GitObject::Tree(t) => t.encode(),
            GitObject::Commit(c) => c.encode(),
        }
    }
}

} // verus!
