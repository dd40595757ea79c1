//! Reading back what was written: the decoder inverts the encoder on every
//! object that the format can carry.

use vstd::prelude::*;
use crate::codec::{
    blob_tag, commit_payload, commit_tag, encode_object, entry_bytes, framed, ident_text, mode_text,
    parent_lines, tree_payload, tree_tag, tz_text,
};
use crate::decode::{
    author_word, committer_word, decode_object, has_at, hash_line_at, hex_decode, message_of,
    parse_commit, parse_ident, parse_mode, parse_parents, parse_tree, parse_tz,
};
use crate::hex::{hex_lower, lemma_hex_round_trip};
use crate::laws::{lemma_commit_parents_read_back, lemma_hex_decode_lower};
use crate::object::{
    CommitModel, CommitTimestamp, EntryModel, ObjectError, ObjectModel, TreeEntryPermission,
};
use crate::text::{
    dec, dec_value, find_from, is_digit, is_digits, lemma_dec_round_trip,
    lemma_find_after_run,
};

verus! {

/// `part` stands in `s` at `from`, holds no `b`, and is followed by `b`:
/// the first `b` from `from` on is the one after `part`.
pub proof fn lemma_find_after_part(s: Seq<u8>, from: int, part: Seq<u8>, b: u8)
    requires
        0 <= from,
        from + part.len() < s.len(),
        s.subrange(from, from + part.len()) == part,
        forall|i: int| 0 <= i < part.len() ==> part[i] != b,
        s[from + part.len()] == b,
    ensures
        find_from(s, b, from) == Some(from + part.len()),
{
    assert forall|j: int| from <= j < from + part.len() implies s[j] != b by {
        assert(s[j] == s.subrange(from, from + part.len())[j - from]);
    }
    lemma_find_after_run(s, b, from, from + part.len());
}

/// Where the parts of a framed object stand.
proof fn lemma_framed_layout(tag: Seq<u8>, payload: Seq<u8>)
    requires
        tag == blob_tag() || tag == tree_tag() || tag == commit_tag(),
    ensures
        ({
            let b = framed(tag, payload);
            let d = dec(payload.len());
            let t = tag.len() as int;
            let nul = t + 1 + d.len();
            &&& find_from(b, 32, 0) == Some(t)
            &&& b.subrange(0, t) == tag
            &&& find_from(b, 0, t + 1) == Some(nul)
            &&& is_digits(b.subrange(t + 1, nul))
            &&& dec_value(b.subrange(t + 1, nul)) == payload.len()
            &&& b.subrange(nul + 1, b.len() as int) == payload
        }),
{
    let b = framed(tag, payload);
    let d = dec(payload.len());
    lemma_dec_round_trip(payload.len());
    let t = tag.len() as int;
    assert(b =~= tag + seq![32u8] + d + seq![0u8] + payload);
    assert(b.subrange(0, t) =~= tag);
    assert(forall|i: int| 0 <= i < tag.len() ==> tag[i] != 32);
    lemma_find_after_part(b, 0, tag, 32);
    assert(b.subrange(t + 1, t + 1 + d.len()) =~= d);
    assert forall|i: int| 0 <= i < d.len() implies d[i] != 0 by {
        assert(48 <= d[i]);
    }
    lemma_find_after_part(b, t + 1, d, 0);
    assert(b.subrange(t + 1 + d.len() + 1, b.len() as int) =~= payload);
}

/// Decoding a framed payload dispatches on the tag.
pub proof fn lemma_decode_framed(tag: Seq<u8>, payload: Seq<u8>)
    requires
        tag == blob_tag() || tag == tree_tag() || tag == commit_tag(),
    ensures
        tag == blob_tag() ==> decode_object(framed(tag, payload)) == Ok::<
            ObjectModel,
            ObjectError,
        >(ObjectModel::Blob(payload)),
        tag == tree_tag() ==> decode_object(framed(tag, payload)) == match parse_tree(payload) {
            Ok(es) => Ok(ObjectModel::Tree(es)),
            Err(e) => Err(e),
        },
        tag == commit_tag() ==> decode_object(framed(tag, payload)) == match crate::decode::parse_commit(payload) {
            Ok(c) => Ok(ObjectModel::Commit(c)),
            Err(e) => Err(e),
        },
{
    lemma_framed_layout(tag, payload);
    assert(blob_tag() != tree_tag()) by {
        assert(blob_tag()[0] != tree_tag()[0]);
    }
    assert(blob_tag() != commit_tag()) by {
        assert(blob_tag().len() != commit_tag().len());
    }
    assert(tree_tag() != commit_tag()) by {
        assert(tree_tag().len() != commit_tag().len());
    }
}

/// A mode string reads back as its permission.
proof fn lemma_mode_round_trip(p: TreeEntryPermission)
    ensures
        parse_mode(mode_text(p)) == Some(p),
        forall|i: int| 0 <= i < mode_text(p).len() ==> mode_text(p)[i] != 32,
{
    let dir = mode_text(TreeEntryPermission::Directory);
    let reg = mode_text(TreeEntryPermission::RegularFile);
    let exe = mode_text(TreeEntryPermission::Executable);
    let sym = mode_text(TreeEntryPermission::SymbolicLink);
    assert(reg != dir && reg != seq![48u8] + dir) by {
        assert(reg.len() != dir.len());
        assert(reg[0] != (seq![48u8] + dir)[0]);
    }
    assert(exe != dir && exe != seq![48u8] + dir) by {
        assert(exe.len() != dir.len());
        assert(exe[0] != (seq![48u8] + dir)[0]);
    }
    assert(sym != dir && sym != seq![48u8] + dir) by {
        assert(sym.len() != dir.len());
        assert(sym[0] != (seq![48u8] + dir)[0]);
    }
    assert(exe != reg && exe != seq![48u8] + reg) by {
        assert(exe[3] != reg[3]);
    }
    assert(sym != reg && sym != seq![48u8] + reg) by {
        assert(sym[1] != reg[1]);
    }
    assert(sym != exe && sym != seq![48u8] + exe) by {
        assert(sym[1] != exe[1]);
    }
}

/// A tree entry that the format can carry: a name free of zero bytes and a
/// 20-byte hash.
pub open spec fn entry_encodable(e: EntryModel) -> bool {
    &&& e.hash.len() == 20
    &&& forall|i: int| 0 <= i < e.name.len() ==> e.name[i] != 0
}

/// The payload of a non-empty list starts with its first entry.
proof fn lemma_tree_payload_front(es: Seq<EntryModel>)
    requires
        es.len() > 0,
    ensures
        tree_payload(es) == entry_bytes(es[0]) + tree_payload(es.drop_first()),
    decreases es.len(),
{
    if es.len() > 1 {
        lemma_tree_payload_front(es.drop_last());
        assert(es.drop_last().drop_first() =~= es.drop_first().drop_last());
        assert(es.drop_first().last() == es.last());
        assert(tree_payload(es) =~= entry_bytes(es[0]) + tree_payload(es.drop_first()));
    } else {
        assert(es.drop_first() =~= Seq::<EntryModel>::empty());
        assert(es.drop_last() =~= Seq::<EntryModel>::empty());
        assert(tree_payload(es) =~= entry_bytes(es[0]) + tree_payload(es.drop_first()));
    }
}

/// One entry followed by more bytes parses as that entry, then the rest.
proof fn lemma_parse_entry(e: EntryModel, rest: Seq<u8>)
    requires
        entry_encodable(e),
    ensures
        parse_tree(entry_bytes(e) + rest) == crate::decode::prepend(seq![e], parse_tree(rest)),
{
    let s = entry_bytes(e) + rest;
    let m = mode_text(e.permission);
    let k = m.len() as int;
    let n = e.name.len() as int;
    lemma_mode_round_trip(e.permission);
    assert(s =~= m + seq![32u8] + e.name + seq![0u8] + e.hash + rest);
    assert(s.subrange(0, k) =~= m);
    lemma_find_after_part(s, 0, m, 32);
    assert(s.subrange(k + 1, k + 1 + n) =~= e.name);
    lemma_find_after_part(s, k + 1, e.name, 0);
    assert(s.subrange(k + 1 + n + 1, k + 1 + n + 21) =~= e.hash);
    assert(s.subrange(k + 1 + n + 21, s.len() as int) =~= rest);
}

/// A tree payload parses back to its entries.
proof fn lemma_parse_tree_payload(es: Seq<EntryModel>)
    requires
        forall|i: int| 0 <= i < es.len() ==> entry_encodable(#[trigger] es[i]),
    ensures
        parse_tree(tree_payload(es)) == Ok::<Seq<EntryModel>, ObjectError>(es),
    decreases es.len(),
{
    if es.len() == 0 {
        assert(es =~= Seq::<EntryModel>::empty());
    } else {
        lemma_tree_payload_front(es);
        let rest = es.drop_first();
        assert(forall|i: int| 0 <= i < rest.len() ==> rest[i] == es[i + 1]);
        lemma_parse_tree_payload(rest);
        lemma_parse_entry(es[0], tree_payload(rest));
        assert(seq![es[0]] + rest =~= es);
    }
}

/// Decoding the encoding of a tree gives back its entries, in order, when
/// every name is free of zero bytes and every hash has 20 bytes.
pub proof fn lemma_tree_round_trip(es: Seq<EntryModel>)
    requires
        forall|i: int| 0 <= i < es.len() ==> entry_encodable(#[trigger] es[i]),
    ensures
        decode_object(encode_object(ObjectModel::Tree(es))) == Ok::<ObjectModel, ObjectError>(
            ObjectModel::Tree(es),
        ),
{
    lemma_parse_tree_payload(es);
    lemma_decode_framed(tree_tag(), tree_payload(es));
}

/// Whether byte `b` occurs nowhere in `s`.
pub open spec fn free_of(s: Seq<u8>, b: u8) -> bool {
    forall|i: int| 0 <= i < s.len() ==> s[i] != b
}

/// A `+HHMM` / `-HHMM` rendering reads back as the offset.
proof fn lemma_tz_round_trip(tz: i16)
    requires
        -6000 < tz < 6000,
    ensures
        parse_tz(tz_text(tz)) == Some(tz),
        free_of(tz_text(tz), 10),
{
    let a: int = if tz < 0 {
        -tz
    } else {
        tz as int
    };
    let h = a / 60;
    let m = a % 60;
    let s = tz_text(tz);
    assert(0 <= h < 100 && 0 <= m < 60);
    assert(0 <= h / 10 < 10 && 0 <= h % 10 < 10 && 0 <= m / 10 < 6 && 0 <= m % 10 < 10);
    assert(s[1] == 48 + h / 10 && s[2] == 48 + h % 10 && s[3] == 48 + m / 10 && s[4] == 48 + m
        % 10);
    assert((h / 10) * 10 + h % 10 == h);
    assert((m / 10) * 10 + m % 10 == m);
    assert(h * 60 + m == a);
}

/// An identity line reads back as its parts, when the name holds no `<` and
/// the e-mail no `>`, and neither holds a newline.
proof fn lemma_ident_round_trip(name: Seq<u8>, email: Seq<u8>, ts: CommitTimestamp)
    requires
        free_of(name, 60),
        free_of(name, 10),
        free_of(email, 62),
        free_of(email, 10),
        ts.wf(),
    ensures
        parse_ident(ident_text(name, email, ts)) == Some((name, email, ts)),
        free_of(ident_text(name, email, ts), 10),
{
    let s = ident_text(name, email, ts);
    let d = dec(ts.seconds as nat);
    let z = tz_text(ts.timezone_offset);
    lemma_dec_round_trip(ts.seconds as nat);
    lemma_tz_round_trip(ts.timezone_offset);
    let n = name.len() as int;
    let e = email.len() as int;
    let k = d.len() as int;
    assert(s =~= name + seq![32u8, 60] + email + seq![62u8, 32] + d + seq![32u8] + z);
    let lt = n + 1;
    let gt = lt + 1 + e;
    let sp = gt + 2 + k;
    let np = name + seq![32u8];
    assert(s.subrange(0, n + 1) =~= np);
    assert(free_of(np, 60)) by {
        assert forall|i: int| 0 <= i < np.len() implies np[i] != 60 by {
            if i < n {
                assert(np[i] == name[i]);
            }
        }
    }
    lemma_find_after_part(s, 0, np, 60);
    assert(s.subrange(lt + 1, gt) =~= email);
    lemma_find_after_part(s, lt + 1, email, 62);
    assert(s.subrange(gt + 2, sp) =~= d);
    assert(free_of(d, 32)) by {
        assert forall|i: int| 0 <= i < d.len() implies d[i] != 32 by {
            assert(is_digit(d[i]));
        }
    }
    lemma_find_after_part(s, gt + 2, d, 32);
    assert(s.subrange(sp + 1, s.len() as int) =~= z);
    assert(s.subrange(0, lt - 1) =~= name);
    assert forall|i: int| 0 <= i < s.len() implies s[i] != 10 by {
        if i < n {
            assert(s[i] == name[i]);
        } else if lt + 1 <= i < gt {
            assert(s[i] == email[i - lt - 1]);
        } else if gt + 2 <= i < sp {
            assert(s[i] == d[i - gt - 2]);
            assert(is_digit(d[i - gt - 2]));
        } else if sp + 1 <= i {
            assert(s[i] == z[i - sp - 1]);
        }
    }
}

/// A commit that the format can carry: 20-byte hashes, a name free of `<`
/// and newlines, an e-mail free of `>` and newlines, and an offset that fits
/// `HHMM`.
pub open spec fn commit_encodable(c: CommitModel) -> bool {
    &&& c.tree.len() == 20
    &&& forall|i: int| 0 <= i < c.parents.len() ==> (#[trigger] c.parents[i]).len() == 20
    &&& free_of(c.author_name, 60)
    &&& free_of(c.author_name, 10)
    &&& free_of(c.author_email, 62)
    &&& free_of(c.author_email, 10)
    &&& c.timestamp.wf()
}

/// The tree line of a commit reads back as its tree.
proof fn lemma_tree_line(c: CommitModel)
    requires
        c.tree.len() == 20,
    ensures
        hash_line_at(commit_payload(c), 0, tree_tag() + seq![32u8]),
        hex_decode(commit_payload(c).subrange(5, 45)) == c.tree,
{
    let p = commit_payload(c);
    let word = tree_tag() + seq![32u8];
    let head = word + hex_lower(c.tree) + seq![10u8];
    lemma_hex_round_trip(c.tree);
    lemma_hex_decode_lower(c.tree);
    assert(p.subrange(0, 46) =~= head);
    assert(p.subrange(0, 5) =~= word);
    assert(p.subrange(5, 45) =~= hex_lower(c.tree));
    assert(p[45] == head[45]);
}

/// Where the lines after the parent lines stand.
proof fn lemma_commit_tail(c: CommitModel)
    requires
        c.tree.len() == 20,
    ensures
        ({
            let p = commit_payload(c);
            let at = 46 + parent_lines(c.parents).len() as int;
            p.subrange(at, p.len() as int) == author_word() + ident_text(
                c.author_name,
                c.author_email,
                c.timestamp,
            ) + seq![10u8] + committer_word() + ident_text(
                c.author_name,
                c.author_email,
                c.timestamp,
            ) + seq![10u8] + seq![10u8] + c.message + seq![10u8]
        }),
{
    let p = commit_payload(c);
    let at = 46 + parent_lines(c.parents).len() as int;
    let head = tree_tag() + seq![32u8] + hex_lower(c.tree) + seq![10u8];
    assert(head.len() == 46);
    assert(author_word() =~= seq![97u8, 117, 116, 104, 111, 114, 32]);
    assert(committer_word() =~= seq![99u8, 111, 109, 109, 105, 116, 116, 101, 114, 32]);
    assert(p.subrange(at, p.len() as int) =~= author_word() + ident_text(
        c.author_name,
        c.author_email,
        c.timestamp,
    ) + seq![10u8] + committer_word() + ident_text(
        c.author_name,
        c.author_email,
        c.timestamp,
    ) + seq![10u8] + seq![10u8] + c.message + seq![10u8]);
}

/// The author, committer, blank line and message that follow the parent lines
/// read back as they were written.
proof fn lemma_parse_tail(p: Seq<u8>, at: int, id: Seq<u8>, msg: Seq<u8>)
    requires
        0 <= at <= p.len(),
        free_of(id, 10),
        p.subrange(at, p.len() as int) == author_word() + id + seq![10u8] + committer_word() + id
            + seq![10u8] + seq![10u8] + msg + seq![10u8],
    ensures
        has_at(p, at, author_word()),
        find_from(p, 10, at + 7) == Some(at + 7 + id.len()),
        p.subrange(at + 7, at + 7 + id.len()) == id,
        has_at(p, at + 8 + id.len(), committer_word()),
        find_from(p, 10, at + 18 + id.len()) == Some(at + 18 + 2 * id.len()),
        at + 20 + 2 * id.len() <= p.len(),
        p[at + 19 + 2 * id.len()] == 10,
        message_of(p.subrange(at + 20 + 2 * id.len(), p.len() as int)) == msg,
{
    let t = p.subrange(at, p.len() as int);
    let k = id.len() as int;
    let nl = at + 7 + k;
    let nl2 = nl + 11 + k;
    assert(author_word().len() == 7 && committer_word().len() == 10);
    assert(t.len() == 21 + 2 * k + msg.len());
    assert(p.len() == at + t.len());
    assert(p.subrange(at, at + 7) =~= t.subrange(0, 7));
    assert(t.subrange(0, 7) =~= author_word());
    assert(p.subrange(at + 7, nl) =~= t.subrange(7, 7 + k));
    assert(t.subrange(7, 7 + k) =~= id);
    assert(p[nl] == t[7 + k]);
    lemma_find_after_part(p, at + 7, id, 10);
    assert(p.subrange(nl + 1, nl + 11) =~= t.subrange(8 + k, 18 + k));
    assert(t.subrange(8 + k, 18 + k) =~= committer_word());
    assert(p.subrange(nl + 11, nl2) =~= t.subrange(18 + k, 18 + 2 * k));
    assert(t.subrange(18 + k, 18 + 2 * k) =~= id);
    assert(p[nl2] == t[18 + 2 * k]);
    lemma_find_after_part(p, nl + 11, id, 10);
    assert(p[nl2 + 1] == t[19 + 2 * k]);
    let m = p.subrange(nl2 + 2, p.len() as int);
    assert(m =~= t.subrange(20 + 2 * k, t.len() as int));
    assert(t.subrange(20 + 2 * k, t.len() as int) =~= msg + seq![10u8]);
    assert(m.drop_last() =~= msg);
}

/// The commit grammar accepts a payload whose lines are as written.
proof fn lemma_parse_commit_from_lines(p: Seq<u8>, c: CommitModel, at: int, id: Seq<u8>)
    requires
        46 <= at <= p.len(),
        hash_line_at(p, 0, tree_tag() + seq![32u8]),
        hex_decode(p.subrange(5, 45)) == c.tree,
        parse_parents(p, 46) == (c.parents, at),
        parse_ident(id) == Some((c.author_name, c.author_email, c.timestamp)),
        has_at(p, at, author_word()),
        find_from(p, 10, at + 7) == Some(at + 7 + id.len()),
        p.subrange(at + 7, at + 7 + id.len()) == id,
        has_at(p, at + 8 + id.len(), committer_word()),
        find_from(p, 10, at + 18 + id.len()) == Some(at + 18 + 2 * id.len()),
        at + 20 + 2 * id.len() <= p.len(),
        p[at + 19 + 2 * id.len()] == 10,
        message_of(p.subrange(at + 20 + 2 * id.len(), p.len() as int)) == c.message,
    ensures
        parse_commit(p) == Ok::<CommitModel, ObjectError>(c),
{
}

/// Decoding the encoding of a commit gives back the commit: tree, parents in
/// order, author, timestamp and message.
pub proof fn lemma_commit_round_trip(c: CommitModel)
    requires
        commit_encodable(c),
    ensures
        decode_object(encode_object(ObjectModel::Commit(c))) == Ok::<ObjectModel, ObjectError>(
            ObjectModel::Commit(c),
        ),
{
    let p = commit_payload(c);
    lemma_tree_line(c);
    lemma_commit_parents_read_back(c);
    let at = 46 + 48 * c.parents.len() as int;
    crate::laws::lemma_parent_lines_length(c.parents);
    lemma_commit_tail(c);
    let id = ident_text(c.author_name, c.author_email, c.timestamp);
    lemma_ident_round_trip(c.author_name, c.author_email, c.timestamp);
    lemma_parse_tail(p, at, id, c.message);
    lemma_parse_commit_from_lines(p, c, at, id);
    lemma_decode_framed(commit_tag(), p);
}

} // verus!
