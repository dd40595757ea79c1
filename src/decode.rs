//! Reading objects back from their encoding. Each reader is stated against a
//! grammar given as spec functions over the bytes.

use vstd::prelude::*;
use crate::codec::{blob_tag, commit_tag, mode_text, tree_tag};
use crate::store::{inflate_of, zlib_decompress, zlib_of};
use crate::hex::{hex_decodes_to, hex_to_sha, hex_value, is_hex};
use vstd::slice::slice_subrange;
use crate::object::{
    Blob, Commit, CommitAuthor, CommitModel, CommitTimestamp, EntryModel, GitObject, ObjectError,
    ObjectModel, Sha, Tree, TreeEntry, TreeEntryPermission,
};
use crate::text::{
    copy_range, dec_value, digits_denote, find_byte, find_from, is_digit, is_digits,
    lemma_find_from, lemma_find_in_suffix, matches_at, parse_u64,
};

verus! {

/// Whether `lit` stands in `s` at position `at`.
pub open spec fn has_at(s: Seq<u8>, at: int, lit: Seq<u8>) -> bool {
    0 <= at && at + lit.len() <= s.len() && s.subrange(at, at + lit.len()) == lit
}

/// Whether `m` is the mode string of `p`, with or without one leading zero.
pub open spec fn mode_matches(m: Seq<u8>, p: TreeEntryPermission) -> bool {
    m == mode_text(p) || m == seq![48u8] + mode_text(p)
}

/// The permission that a mode string names, if any.
pub open spec fn parse_mode(m: Seq<u8>) -> Option<TreeEntryPermission> {
    if mode_matches(m, TreeEntryPermission::Directory) {
        Some(TreeEntryPermission::Directory)
    } else if mode_matches(m, TreeEntryPermission::RegularFile) {
        Some(TreeEntryPermission::RegularFile)
    } else if mode_matches(m, TreeEntryPermission::Executable) {
        Some(TreeEntryPermission::Executable)
    } else if mode_matches(m, TreeEntryPermission::SymbolicLink) {
        Some(TreeEntryPermission::SymbolicLink)
    } else {
        None
    }
}

/// Puts `first` in front of a parsed list.
pub open spec fn prepend<T>(first: Seq<T>, r: Result<Seq<T>, ObjectError>) -> Result<
    Seq<T>,
    ObjectError,
> {
    match r {
        Ok(rest) => Ok(first + rest),
        Err(e) => Err(e),
    }
}

/// The entries of a tree payload: for each, a mode up to the first space,
/// a name up to the next zero byte, and 20 raw hash bytes.
pub open spec fn parse_tree(p: Seq<u8>) -> Result<Seq<EntryModel>, ObjectError>
    decreases p.len(),
{
    if p.len() == 0 {
        Ok(Seq::empty())
    } else {
        match find_from(p, 32, 0) {
            None => Err(ObjectError::MalformedObject),
            Some(sp) => match parse_mode(p.subrange(0, sp)) {
                None => Err(ObjectError::UnsupportedPermission),
                Some(perm) => match find_from(p, 0, sp + 1) {
                    None => Err(ObjectError::MalformedObject),
                    Some(nul) => if nul < 0 || nul + 21 > p.len() {
                        Err(ObjectError::MalformedObject)
                    } else {
                        let e = EntryModel {
                            permission: perm,
                            name: p.subrange(sp + 1, nul),
                            hash: p.subrange(nul + 1, nul + 21),
                        };
                        prepend(seq![e], parse_tree(p.subrange(nul + 21, p.len() as int)))
                    },
                },
            },
        }
    }
}

/// The bytes that hex text denotes, high nibble first.
pub open spec fn hex_decode(s: Seq<u8>) -> Seq<u8> {
    Seq::new(s.len() / 2, |i: int| (hex_value(s[2 * i]) * 16 + hex_value(s[2 * i + 1])) as u8)
}

/// Whether a `<prefix><40 hex digits>\n` line starts at `at`.
pub open spec fn hash_line_at(p: Seq<u8>, at: int, prefix: Seq<u8>) -> bool {
    &&& has_at(p, at, prefix)
    &&& at + prefix.len() + 41 <= p.len()
    &&& is_hex(p.subrange(at + prefix.len(), at + prefix.len() + 40))
    &&& p[at + prefix.len() + 40] == 10
}

/// The text `parent `.
pub open spec fn parent_word() -> Seq<u8> {
    seq![112u8, 97, 114, 101, 110, 116, 32]
}

/// The parent hashes of the run of parent lines from `at`, and where the run ends.
pub open spec fn parse_parents(p: Seq<u8>, at: int) -> (Seq<Seq<u8>>, int)
    decreases p.len() - at,
{
    if at >= 0 && hash_line_at(p, at, parent_word()) {
        let h = hex_decode(p.subrange(at + 7, at + 47));
        let (rest, end) = parse_parents(p, at + 48);
        (seq![h] + rest, end)
    } else {
        (Seq::empty(), at)
    }
}

/// A `+HHMM` / `-HHMM` offset, as minutes, if well formed.
pub open spec fn parse_tz(s: Seq<u8>) -> Option<i16> {
    if s.len() == 5 && (s[0] == 43 || s[0] == 45) && is_digit(s[1]) && is_digit(s[2]) && is_digit(
        s[3],
    ) && is_digit(s[4]) && (s[3] - 48) * 10 + (s[4] - 48) < 60 {
        let minutes = ((s[1] - 48) * 10 + (s[2] - 48)) * 60 + (s[3] - 48) * 10 + (s[4] - 48);
        Some(
            (if s[0] == 45 {
                -minutes
            } else {
                minutes
            }) as i16,
        )
    } else {
        None
    }
}

/// `name <email> seconds +HHMM`, read into its parts.
pub open spec fn parse_ident(s: Seq<u8>) -> Option<(Seq<u8>, Seq<u8>, CommitTimestamp)> {
    match find_from(s, 60, 0) {
        None => None,
        Some(lt) => if lt < 1 || s[lt - 1] != 32 {
            None
        } else {
            match find_from(s, 62, lt + 1) {
                None => None,
                Some(gt) => if gt + 2 > s.len() || s[gt + 1] != 32 {
                    None
                } else {
                    match find_from(s, 32, gt + 2) {
                        None => None,
                        Some(sp) => {
                            let digits = s.subrange(gt + 2, sp);
                            match parse_tz(s.subrange(sp + 1, s.len() as int)) {
                                None => None,
                                Some(tz) => if is_digits(digits) && dec_value(digits)
                                    <= u64::MAX {
                                    Some(
                                        (
                                            s.subrange(0, lt - 1),
                                            s.subrange(lt + 1, gt),
                                            CommitTimestamp {
                                                seconds: dec_value(digits) as u64,
                                                timezone_offset: tz,
                                            },
                                        ),
                                    )
                                } else {
                                    None
                                },
                            }
                        },
                    }
                },
            }
        },
    }
}

/// The text `author `.
pub open spec fn author_word() -> Seq<u8> {
    seq![97u8, 117, 116, 104, 111, 114, 32]
}

/// The text `committer `.
pub open spec fn committer_word() -> Seq<u8> {
    seq![99u8, 111, 109, 109, 105, 116, 116, 101, 114, 32]
}

/// The message that follows the blank line: the rest, less one final newline.
pub open spec fn message_of(m: Seq<u8>) -> Seq<u8> {
    if m.len() > 0 && m.last() == 10 {
        m.drop_last()
    } else {
        m
    }
}

/// A commit payload: a tree line, parent lines, an author line, a committer
/// line (read but not kept), a blank line, and the message.
pub open spec fn parse_commit(p: Seq<u8>) -> Result<CommitModel, ObjectError> {
    if !hash_line_at(p, 0, tree_tag() + seq![32u8]) {
        Err(ObjectError::MalformedObject)
    } else {
        let (parents, at) = parse_parents(p, 46);
        if !has_at(p, at, author_word()) {
            Err(ObjectError::MalformedObject)
        } else {
            match find_from(p, 10, at + 7) {
                None => Err(ObjectError::MalformedObject),
                Some(nl) => match parse_ident(p.subrange(at + 7, nl)) {
                    None => Err(ObjectError::MalformedObject),
                    Some((name, email, ts)) => if !has_at(p, nl + 1, committer_word()) {
                        Err(ObjectError::MalformedObject)
                    } else {
                        match find_from(p, 10, nl + 11) {
                            None => Err(ObjectError::MalformedObject),
                            Some(nl2) => if nl2 + 2 > p.len() || p[nl2 + 1] != 10 {
                                Err(ObjectError::MalformedObject)
                            } else {
                                Ok(
                                    CommitModel {
                                        tree: hex_decode(p.subrange(5, 45)),
                                        parents,
                                        author_name: name,
                                        author_email: email,
                                        timestamp: ts,
                                        message: message_of(p.subrange(nl2 + 2, p.len() as int)),
                                    },
                                )
                            },
                        }
                    },
                },
            }
        }
    }
}

/// An encoded object: a type tag up to the first space (one of `blob`,
/// `tree`, `commit`), a decimal length up to the first zero byte that equals
/// the number of bytes that follow, then the payload.
pub open spec fn decode_object(b: Seq<u8>) -> Result<ObjectModel, ObjectError> {
    match find_from(b, 32, 0) {
        None => Err(ObjectError::MalformedObject),
        Some(sp) => {
            let tag = b.subrange(0, sp);
            if tag != blob_tag() && tag != tree_tag() && tag != commit_tag() {
                Err(ObjectError::UnsupportedObjectType)
            } else {
                match find_from(b, 0, sp + 1) {
                    None => Err(ObjectError::MalformedObject),
                    Some(nul) => {
                        let digits = b.subrange(sp + 1, nul);
                        let payload = b.subrange(nul + 1, b.len() as int);
                        if !is_digits(digits) || dec_value(digits) != payload.len() {
                            Err(ObjectError::MalformedObject)
                        } else if tag == blob_tag() {
                            Ok(ObjectModel::Blob(payload))
                        } else if tag == tree_tag() {
                            match parse_tree(payload) {
                                Ok(es) => Ok(ObjectModel::Tree(es)),
                                Err(e) => Err(e),
                            }
                        } else {
                            match parse_commit(payload) {
                                Ok(c) => Ok(ObjectModel::Commit(c)),
                                Err(e) => Err(e),
                            }
                        }
                    },
                }
            }
        },
    }
}

/// Whether `s[from..to]` is `lit`, with or without one leading zero.
fn mode_is(s: &[u8], from: usize, to: usize, lit: &[u8]) -> (r: bool)
    requires
        from <= to <= s@.len(),
    ensures
        r == (s@.subrange(from as int, to as int) == lit@ || s@.subrange(from as int, to as int)
            == seq![48u8] + lit@),
{
    let ghost sub = s@.subrange(from as int, to as int);
    let n = to - from;
    if n == lit.len() {
        let r = matches_at(s, from, lit);
        proof {
            assert(sub =~= s@.subrange(from as int, from + lit@.len()));
            assert(sub.len() != (seq![48u8] + lit@).len());
        }
        r
    } else if lit.len() < n && n - lit.len() == 1 {
        if s[from] != 48 {
            proof {
                assert(sub[0] != (seq![48u8] + lit@)[0]);
            }
            return false;
        }
        let r = matches_at(s, from + 1, lit);
        proof {
            assert(sub =~= seq![48u8] + s@.subrange(from + 1, to as int));
            if sub == seq![48u8] + lit@ {
                assert(s@.subrange(from + 1, to as int) =~= sub.drop_first());
                assert(lit@ =~= (seq![48u8] + lit@).drop_first());
            }
        }
        r
    } else {
        false
    }
}

/// The permission that the mode string `s[from..to]` names, if any.
fn mode_of(s: &[u8], from: usize, to: usize) -> (r: Option<TreeEntryPermission>)
    requires
        from <= to <= s@.len(),
    ensures
        r == parse_mode(s@.subrange(from as int, to as int)),
{
    if mode_is(s, from, to, &[52u8, 48, 48, 48, 48]) {
        proof {
            assert(mode_text(TreeEntryPermission::Directory) =~= seq![52u8, 48, 48, 48, 48]);
        }
        return Some(TreeEntryPermission::Directory);
    }
    proof {
        assert(mode_text(TreeEntryPermission::Directory) =~= seq![52u8, 48, 48, 48, 48]);
    }
    if mode_is(s, from, to, &[49u8, 48, 48, 54, 52, 52]) {
        proof {
            assert(mode_text(TreeEntryPermission::RegularFile) =~= seq![49u8, 48, 48, 54, 52, 52]);
        }
        return Some(TreeEntryPermission::RegularFile);
    }
    proof {
        assert(mode_text(TreeEntryPermission::RegularFile) =~= seq![49u8, 48, 48, 54, 52, 52]);
    }
    if mode_is(s, from, to, &[49u8, 48, 48, 55, 53, 53]) {
        proof {
            assert(mode_text(TreeEntryPermission::Executable) =~= seq![49u8, 48, 48, 55, 53, 53]);
        }
        return Some(TreeEntryPermission::Executable);
    }
    proof {
        assert(mode_text(TreeEntryPermission::Executable) =~= seq![49u8, 48, 48, 55, 53, 53]);
    }
    if mode_is(s, from, to, &[49u8, 50, 48, 48, 48, 48]) {
        proof {
            assert(mode_text(TreeEntryPermission::SymbolicLink) =~= seq![49u8, 50, 48, 48, 48, 48]);
        }
        return Some(TreeEntryPermission::SymbolicLink);
    }
    proof {
        assert(mode_text(TreeEntryPermission::SymbolicLink) =~= seq![49u8, 50, 48, 48, 48, 48]);
    }
    None
}

/// Copies the 20 bytes of `s` from `at` into a hash.
pub fn sha_at(s: &[u8], at: usize) -> (r: Sha)
    requires
        at + 20 <= s@.len(),
    ensures
        r@ == s@.subrange(at as int, at + 20),
{
    let mut h = [0u8; 20];
    let len = s.len();
    let mut k: usize = 0;
    while k < 20
        invariant
            k <= 20,
            at + 20 <= s@.len(),
            len == s@.len(),
            h@.len() == 20,
            forall|j: int| 0 <= j < k ==> h@[j] == s@[at + j],
        decreases 20 - k,
    {
        h[k] = s[at + k];
        k = k + 1;
    }
    proof {
        assert(h@ =~= s@.subrange(at as int, at + 20));
    }
    h
}

/// The views of a list of entries.
pub open spec fn entries_view(es: Seq<TreeEntry>) -> Seq<EntryModel> {
    es.map_values(|e: TreeEntry| e@)
}

/// A parsed tree, as a list of entry views.
pub open spec fn tree_result(r: Result<Tree, ObjectError>) -> Result<Seq<EntryModel>, ObjectError> {
    match r {
        Ok(t) => Ok(t@),
        Err(e) => Err(e),
    }
}

impl Tree {
    /// Reads a tree payload.
    pub fn from(content: &[u8]) -> (r: Result<Tree, ObjectError>)
        ensures
            tree_result(r) == parse_tree(content@),
    {
        let mut entries: Vec<TreeEntry> = Vec::new();
        let mut pos: usize = 0;
        let ghost p = content@;
        proof {
            assert(p.subrange(0, p.len() as int) =~= p);
            assert(prepend(Seq::<EntryModel>::empty(), parse_tree(p)) =~= parse_tree(p)) by {
                match parse_tree(p) {
                    Ok(es) => {
                        assert(Seq::<EntryModel>::empty() + es =~= es);
                    },
                    Err(_) => {},
                }
            }
        }
        while pos < content.len()
            invariant
                p == content@,
                pos <= p.len(),
                parse_tree(p) == prepend(
                    entries_view(entries@),
                    parse_tree(p.subrange(pos as int, p.len() as int)),
                ),
            decreases p.len() - pos,
        {
            let ghost sub = p.subrange(pos as int, p.len() as int);
            proof {
                lemma_find_in_suffix(p, 32, pos as int, 0);
            }
            let sp = match find_byte(content, 32, pos) {
                None => {
                    return Err(ObjectError::MalformedObject);
                },
                Some(i) => i,
            };
            proof {
                lemma_find_from(p, 32, pos as int);
                assert(sub.subrange(0, sp - pos) =~= p.subrange(pos as int, sp as int));
            }
            let perm = match mode_of(content, pos, sp) {
                None => {
                    return Err(ObjectError::UnsupportedPermission);
                },
                Some(m) => m,
            };
            proof {
                lemma_find_in_suffix(p, 0, pos as int, sp - pos + 1);
            }
            let nul = match find_byte(content, 0, sp + 1) {
                None => {
                    return Err(ObjectError::MalformedObject);
                },
                Some(i) => i,
            };
            proof {
                lemma_find_from(p, 0, sp + 1);
            }
            if content.len() - nul < 21 {
                return Err(ObjectError::MalformedObject);
            }
            let name = copy_range(content, sp + 1, nul);
            let hash = sha_at(content, nul + 1);
            let entry = TreeEntry { permission: perm, name, hash };
            let ghost before = entries_view(entries@);
            entries.push(entry);
            proof {
                let sp_ = sp - pos;
                let nul_ = nul - pos;
                assert(sub.subrange(sp_ + 1, nul_) =~= p.subrange(sp + 1, nul as int));
                assert(sub.subrange(nul_ + 1, nul_ + 21) =~= p.subrange(nul + 1, nul + 21));
                assert(sub.subrange(nul_ + 21, sub.len() as int) =~= p.subrange(
                    nul + 21,
                    p.len() as int,
                ));
                assert(entries_view(entries@) =~= before + seq![entry@]);
                match parse_tree(p.subrange(nul + 21, p.len() as int)) {
                    Ok(es) => {
                        assert(before + (seq![entry@] + es) =~= (before + seq![entry@]) + es);
                    },
                    Err(_) => {},
                }
            }
            pos = nul + 21;
        }
        proof {
            assert(p.subrange(pos as int, p.len() as int) =~= Seq::<u8>::empty());
            assert(entries_view(entries@) + Seq::<EntryModel>::empty() =~= entries_view(entries@));
        }
        Ok(Tree { entries })
    }
}

/// Reads a `<prefix><40 hex digits>\n` line at `at`.
fn hash_line(s: &[u8], at: usize, prefix: &[u8]) -> (r: Option<Sha>)
    requires
        prefix@.len() <= 10,
    ensures
        r is Some <==> hash_line_at(s@, at as int, prefix@),
        r matches Some(h) ==> h@ == hex_decode(
            s@.subrange(at + prefix@.len(), at + prefix@.len() + 40),
        ),
{
    let n = s.len();
    if !matches_at(s, at, prefix) {
        return None;
    }
    let start = at + prefix.len();
    if s.len() - start < 41 {
        return None;
    }
    if s[start + 40] != 10 {
        return None;
    }
    let text = slice_subrange(s, start, start + 40);
    match hex_to_sha(text) {
        Ok(h) => {
            proof {
                assert(h@ =~= hex_decode(text@)) by {
                    assert(hex_decodes_to(text@, h@));
                    assert forall|i: int| 0 <= i < 20 implies h@[i] == hex_decode(text@)[i] by {
                        assert(h@[i] == hex_value(text@[2 * i]) * 16 + hex_value(text@[2 * i + 1]));
                    }
                }
            }
            Some(h)
        },
        Err(_) => None,
    }
}

/// The offset that `s[from..to]` spells as `+HHMM` / `-HHMM`, if any.
fn tz_of(s: &[u8], from: usize, to: usize) -> (r: Option<i16>)
    requires
        from <= to <= s@.len(),
    ensures
        r == parse_tz(s@.subrange(from as int, to as int)),
        r matches Some(z) ==> -6000 < z < 6000,
{
    let ghost t = s@.subrange(from as int, to as int);
    if to - from != 5 {
        return None;
    }
    let sign = s[from];
    if sign != 43 && sign != 45 {
        return None;
    }
    let d1 = s[from + 1];
    let d2 = s[from + 2];
    let d3 = s[from + 3];
    let d4 = s[from + 4];
    if d1 < 48 || d1 > 57 || d2 < 48 || d2 > 57 || d3 < 48 || d3 > 57 || d4 < 48 || d4 > 57 {
        return None;
    }
    let mm: i16 = ((d3 - 48) * 10 + (d4 - 48)) as i16;
    if mm >= 60 {
        return None;
    }
    let hh: i16 = ((d1 - 48) * 10 + (d2 - 48)) as i16;
    let minutes: i16 = hh * 60 + mm;
    proof {
        assert(t[0] == sign && t[1] == d1 && t[2] == d2 && t[3] == d3 && t[4] == d4);
    }
    if sign == 45 {
        Some(0 - minutes)
    } else {
        Some(minutes)
    }
}

/// Reads `name <email> seconds +HHMM`.
fn ident_of(s: &[u8]) -> (r: Option<(Vec<u8>, Vec<u8>, CommitTimestamp)>)
    ensures
        r matches Some(x) ==> parse_ident(s@) == Some((x.0@, x.1@, x.2)) && x.2.wf(),
        r is None ==> parse_ident(s@) is None,
{
    let lt = match find_byte(s, 60, 0) {
        None => {
            return None;
        },
        Some(i) => i,
    };
    proof {
        lemma_find_from(s@, 60, 0);
    }
    if lt < 1 || s[lt - 1] != 32 {
        return None;
    }
    let gt = match find_byte(s, 62, lt + 1) {
        None => {
            return None;
        },
        Some(i) => i,
    };
    proof {
        lemma_find_from(s@, 62, lt + 1);
    }
    if s.len() - gt < 2 || s[gt + 1] != 32 {
        return None;
    }
    let sp = match find_byte(s, 32, gt + 2) {
        None => {
            return None;
        },
        Some(i) => i,
    };
    proof {
        lemma_find_from(s@, 32, gt + 2);
    }
    let tz = match tz_of(s, sp + 1, s.len()) {
        None => {
            return None;
        },
        Some(z) => z,
    };
    let seconds = match parse_u64(s, gt + 2, sp) {
        None => {
            return None;
        },
        Some(v) => v,
    };
    let name = copy_range(s, 0, lt - 1);
    let email = copy_range(s, lt + 1, gt);
    Some((name, email, CommitTimestamp { seconds, timezone_offset: tz }))
}

/// A parsed commit, as its view.
pub open spec fn commit_result(r: Result<Commit, ObjectError>) -> Result<CommitModel, ObjectError> {
    match r {
        Ok(c) => Ok(c@),
        Err(e) => Err(e),
    }
}

/// The views of a list of hashes.
pub open spec fn hashes_view(hs: Seq<Sha>) -> Seq<Seq<u8>> {
    hs.map_values(|h: Sha| h@)
}

impl Commit {
    /// Reads a commit payload.
    pub fn from(content: &[u8]) -> (r: Result<Commit, ObjectError>)
        ensures
            commit_result(r) == parse_commit(content@),
            r matches Ok(c) ==> c.author_timestamp.wf(),
    {
        let ghost p = content@;
        let tree = match hash_line(content, 0, &[116u8, 114, 101, 101, 32]) {
            None => {
                proof {
                    assert(tree_tag() + seq![32u8] =~= seq![116u8, 114, 101, 101, 32]);
                }
                return Err(ObjectError::MalformedObject);
            },
            Some(h) => h,
        };
        proof {
            assert(tree_tag() + seq![32u8] =~= seq![116u8, 114, 101, 101, 32]);
        }
        let mut parents: Vec<Sha> = Vec::new();
        let mut pos: usize = 46;
        let len = content.len();
        loop
            invariant
                p == content@,
                len == p.len(),
                46 <= pos <= len,
                parse_parents(p, 46) == (
                    hashes_view(parents@) + parse_parents(p, pos as int).0,
                    parse_parents(p, pos as int).1,
                ),
            ensures
                46 <= pos <= len,
                parse_parents(p, pos as int) == (Seq::<Seq<u8>>::empty(), pos as int),
            decreases len - pos,
        {
            match hash_line(content, pos, &[112u8, 97, 114, 101, 110, 116, 32]) {
                None => {
                    proof {
                        assert(parent_word() =~= seq![112u8, 97, 114, 101, 110, 116, 32]);
                    }
                    break;
                },
                Some(h) => {
                    let ghost before = parents@;
                    proof {
                        assert(parent_word() =~= seq![112u8, 97, 114, 101, 110, 116, 32]);
                        let rest = parse_parents(p, pos + 48);
                        assert(hashes_view(before) + (seq![h@] + rest.0) =~= (hashes_view(before)
                            + seq![h@]) + rest.0);
                    }
                    parents.push(h);
                    proof {
                        assert(hashes_view(parents@) =~= hashes_view(before) + seq![h@]);
                    }
                    pos = pos + 48;
                },
            }
        }
        proof {
            assert(parse_parents(p, pos as int).0 =~= Seq::<Seq<u8>>::empty());
            assert(hashes_view(parents@) + Seq::<Seq<u8>>::empty() =~= hashes_view(parents@));
        }
        if !matches_at(content, pos, &[97u8, 117, 116, 104, 111, 114, 32]) {
            proof {
                assert(author_word() =~= seq![97u8, 117, 116, 104, 111, 114, 32]);
            }
            return Err(ObjectError::MalformedObject);
        }
        proof {
            assert(author_word() =~= seq![97u8, 117, 116, 104, 111, 114, 32]);
        }
        let nl = match find_byte(content, 10, pos + 7) {
            None => {
                return Err(ObjectError::MalformedObject);
            },
            Some(i) => i,
        };
        proof {
            lemma_find_from(p, 10, pos + 7);
        }
        let ident = slice_subrange(content, pos + 7, nl);
        let (name, email, ts) = match ident_of(ident) {
            None => {
                return Err(ObjectError::MalformedObject);
            },
            Some(x) => x,
        };
        if !matches_at(content, nl + 1, &[99u8, 111, 109, 109, 105, 116, 116, 101, 114, 32]) {
            proof {
                assert(committer_word() =~= seq![99u8, 111, 109, 109, 105, 116, 116, 101, 114, 32]);
            }
            return Err(ObjectError::MalformedObject);
        }
        proof {
            assert(committer_word() =~= seq![99u8, 111, 109, 109, 105, 116, 116, 101, 114, 32]);
        }
        let nl2 = match find_byte(content, 10, nl + 11) {
            None => {
                return Err(ObjectError::MalformedObject);
            },
            Some(i) => i,
        };
        proof {
            lemma_find_from(p, 10, nl + 11);
        }
        if len - nl2 < 2 || content[nl2 + 1] != 10 {
            return Err(ObjectError::MalformedObject);
        }
        let mut message = copy_range(content, nl2 + 2, len);
        let ghost m = message@;
        if message.len() > 0 && message[message.len() - 1] == 10 {
            message.pop();
        }
        proof {
            assert(message@ =~= message_of(m));
        }
        let c = Commit {
            tree,
            parents,
            author: CommitAuthor { name, email },
            author_timestamp: ts,
            message,
        };
        proof {
            assert(c@ =~= parse_commit(p)->Ok_0);
        }
        Ok(c)
    }
}

/// A decoded object, as its view.
pub open spec fn object_result(r: Result<GitObject, ObjectError>) -> Result<ObjectModel, ObjectError> {
    match r {
        Ok(o) => Ok(o@),
        Err(e) => Err(e),
    }
}

impl GitObject {
    /// Reads an encoded object: header, then the payload of the kind it names.
    pub fn decode(b: &[u8]) -> (r: Result<GitObject, ObjectError>)
        ensures
            object_result(r) == decode_object(b@),
            r matches Ok(o) ==> o.wf(),
    {
        let len = b.len();
        let sp = match find_byte(b, 32, 0) {
            None => {
                return Err(ObjectError::MalformedObject);
            },
            Some(i) => i,
        };
        proof {
            lemma_find_from(b@, 32, 0);
            assert(blob_tag() =~= seq![98u8, 108, 111, 98]);
            assert(tree_tag() =~= seq![116u8, 114, 101, 101]);
            assert(commit_tag() =~= seq![99u8, 111, 109, 109, 105, 116]);
        }
        let ghost tag = b@.subrange(0, sp as int);
        let is_blob = sp == 4 && matches_at(b, 0, &[98u8, 108, 111, 98]);
        let is_tree = sp == 4 && matches_at(b, 0, &[116u8, 114, 101, 101]);
        let is_commit = sp == 6 && matches_at(b, 0, &[99u8, 111, 109, 109, 105, 116]);
        proof {
            assert(is_blob == (tag == blob_tag())) by {
                if tag == blob_tag() {
                    assert(b@.subrange(0, 4) =~= tag);
                }
            }
            assert(is_tree == (tag == tree_tag())) by {
                if tag == tree_tag() {
                    assert(b@.subrange(0, 4) =~= tag);
                }
            }
            assert(is_commit == (tag == commit_tag())) by {
                if tag == commit_tag() {
                    assert(b@.subrange(0, 6) =~= tag);
                }
            }
        }
        if !is_blob && !is_tree && !is_commit {
            return Err(ObjectError::UnsupportedObjectType);
        }
        let nul = match find_byte(b, 0, sp + 1) {
            None => {
                return Err(ObjectError::MalformedObject);
            },
            Some(i) => i,
        };
        proof {
            lemma_find_from(b@, 0, sp + 1);
        }
        if !digits_denote(b, sp + 1, nul, len - (nul + 1)) {
            return Err(ObjectError::MalformedObject);
        }
        let payload = slice_subrange(b, nul + 1, len);
        if is_blob {
            let blob = Blob::from(payload);
            Ok(GitObject::Blob(blob))
        } else if is_tree {
            match Tree::from(payload) {
                Ok(t) => Ok(GitObject::Tree(t)),
                Err(e) => Err(e),
            }
        } else {
            match Commit::from(payload) {
                Ok(c) => Ok(GitObject::Commit(c)),
                Err(e) => Err(e),
            }
        }
    }

    /// Decompresses the contents of an object file and reads the object.
    /// Data that does not decompress is `MalformedObject`.
    pub fn from_data(data: &[u8]) -> (r: Result<GitObject, ObjectError>)
        ensures
            inflate_of(data@) is None ==> r == Err::<GitObject, ObjectError>(
                ObjectError::MalformedObject,
            ),
            inflate_of(data@) matches Some(x) ==> object_result(r) == decode_object(x),
            forall|x: Seq<u8>| #[trigger] zlib_of(x) == data@ ==> object_result(r) == decode_object(x),
            r matches Ok(o) ==> o.wf(),
    {
        match zlib_decompress(data) {
            None => Err(ObjectError::MalformedObject),
            Some(bytes) => Self::decode(bytes.as_slice()),
        }
    }
}

} // verus!
