//! Properties that relate several operations of the library.

use vstd::prelude::*;
use vstd::multiset::Multiset;
use crate::codec::{blob_tag, commit_payload, commit_tag, encode_object, parent_lines, tree_tag};
use crate::decode::{decode_object, hash_line_at, has_at, hex_decode, parent_word, parse_parents};
use crate::hex::{hex_lower, hex_value, lemma_hex_round_trip};
use crate::object::{CommitModel, EntryModel, ObjectError, ObjectModel};
use crate::sort::{is_sorted_arrangement, lemma_name_lt_total, name_lt, names_unique, sorted_by_name};
use crate::store::{sha1_of, stores, ObjectWrite};
use crate::text::{dec, lemma_dec_round_trip, lemma_find_after_run};

verus! {

broadcast use {vstd::seq_lib::group_to_multiset_ensures, vstd::multiset::group_multiset_axioms};

/// Decoding the encoding of a blob gives back the same blob, for every payload.
pub proof fn lemma_blob_round_trip(p: Seq<u8>)
    ensures
        decode_object(encode_object(ObjectModel::Blob(p))) == Ok::<ObjectModel, ObjectError>(
            ObjectModel::Blob(p),
        ),
{
    let b = encode_object(ObjectModel::Blob(p));
    let d = dec(p.len());
    lemma_dec_round_trip(p.len());
    let k = d.len() as int;
    assert(b =~= blob_tag() + seq![32u8] + d + seq![0u8] + p);
    assert(b[4] == 32);
    lemma_find_after_run(b, 32, 0, 4);
    assert(b.subrange(0, 4) =~= blob_tag());
    assert forall|j: int| 5 <= j < 5 + k implies b[j] != 0 by {
        assert(b[j] == d[j - 5]);
    }
    lemma_find_after_run(b, 0, 5, 5 + k);
    assert(b.subrange(5, 5 + k) =~= d);
    assert(b.subrange(5 + k + 1, b.len() as int) =~= p);
}

/// An object whose type tag (the bytes before the first space) is none of
/// `blob`, `tree`, `commit` is rejected as an unsupported type, whatever follows.
pub proof fn lemma_unknown_type_rejected(tag: Seq<u8>, rest: Seq<u8>)
    requires
        forall|i: int| 0 <= i < tag.len() ==> tag[i] != 32,
        tag != blob_tag(),
        tag != tree_tag(),
        tag != commit_tag(),
    ensures
        decode_object(tag + seq![32u8] + rest) == Err::<ObjectModel, ObjectError>(
            ObjectError::UnsupportedObjectType,
        ),
{
    let b = tag + seq![32u8] + rest;
    lemma_find_after_run(b, 32, 0, tag.len() as int);
    assert(b.subrange(0, tag.len() as int) =~= tag);
}

/// No two different entries of the multiset share a name.
pub open spec fn distinct_names(m: Multiset<EntryModel>) -> bool {
    forall|e1: EntryModel, e2: EntryModel|
        m.contains(e1) && m.contains(e2) && e1.name == e2.name ==> e1 == e2
}

proof fn lemma_distinct_names_of_unique(a: Seq<EntryModel>)
    requires
        names_unique(a),
    ensures
        distinct_names(a.to_multiset()),
{
    assert forall|e1: EntryModel, e2: EntryModel|
        a.to_multiset().contains(e1) && a.to_multiset().contains(e2) && e1.name
            == e2.name implies e1 == e2 by {
        assert(a.contains(e1));
        assert(a.contains(e2));
        let i = choose|i: int| 0 <= i < a.len() && a[i] == e1;
        let j = choose|j: int| 0 <= j < a.len() && a[j] == e2;
        if i < j {
            assert(a[i].name != a[j].name);
        } else if j < i {
            assert(a[j].name != a[i].name);
        }
    }
}

/// A name-sorted arrangement of entries with distinct names has distinct names.
pub proof fn lemma_arrangement_keeps_names_unique(a: Seq<EntryModel>, x: Seq<EntryModel>)
    requires
        names_unique(a),
        is_sorted_arrangement(x, a),
    ensures
        names_unique(x),
{
    lemma_distinct_names_of_unique(a);
    assert(a.no_duplicates()) by {
        assert forall|i: int, j: int| 0 <= i < a.len() && 0 <= j < a.len() && i != j implies a[i]
            != a[j] by {
            if i < j {
                assert(a[i].name != a[j].name);
            } else {
                assert(a[j].name != a[i].name);
            }
        }
    }
    a.lemma_multiset_has_no_duplicates();
    x.lemma_multiset_has_no_duplicates_conv();
    assert forall|i: int, j: int| 0 <= i < j < x.len() implies #[trigger] x[i].name
        != #[trigger] x[j].name by {
        assert(x.to_multiset().contains(x[i]));
        assert(x.to_multiset().contains(x[j]));
        assert(x[i] != x[j]);
    }
}

proof fn lemma_sorted_equal(x: Seq<EntryModel>, y: Seq<EntryModel>)
    requires
        sorted_by_name(x),
        sorted_by_name(y),
        x.to_multiset() == y.to_multiset(),
        distinct_names(x.to_multiset()),
    ensures
        x == y,
    decreases x.len(),
{
    if x.len() == 0 || y.len() == 0 {
        assert(x.len() == x.to_multiset().len());
        assert(y.len() == y.to_multiset().len());
        assert(x =~= y);
    } else {
        assert(x.to_multiset().contains(x[0]));
        assert(y.to_multiset().contains(y[0]));
        assert(x.contains(y[0]));
        assert(y.contains(x[0]));
        let i = choose|i: int| 0 <= i < x.len() && x[i] == y[0];
        let j = choose|j: int| 0 <= j < y.len() && y[j] == x[0];
        if x[0] != y[0] {
            if x[0].name == y[0].name {
                assert(false);
            } else {
                lemma_name_lt_total(x[0].name, y[0].name);
                if name_lt(x[0].name, y[0].name) {
                    assert(j > 0);
                    assert(!name_lt(y[j].name, y[0].name));
                } else {
                    assert(i > 0);
                    assert(!name_lt(x[i].name, x[0].name));
                }
            }
        }
        vstd::seq_lib::to_multiset_remove(x, 0);
        vstd::seq_lib::to_multiset_remove(y, 0);
        assert(x.remove(0) =~= x.drop_first());
        assert(y.remove(0) =~= y.drop_first());
        assert(sorted_by_name(x.drop_first()));
        assert(sorted_by_name(y.drop_first())) by {
            assert forall|a: int, b: int| 0 <= a < b < y.drop_first().len() implies !name_lt(
                #[trigger] y.drop_first()[b].name,
                #[trigger] y.drop_first()[a].name,
            ) by {
                assert(y.drop_first()[b] == y[b + 1] && y.drop_first()[a] == y[a + 1]);
            }
        }
        assert(distinct_names(x.drop_first().to_multiset())) by {
            let m = x.to_multiset();
            let m2 = x.drop_first().to_multiset();
            assert forall|e1: EntryModel, e2: EntryModel|
                m2.contains(e1) && m2.contains(e2) && e1.name == e2.name implies e1 == e2 by {
                assert(m.contains(e1));
                assert(m.contains(e2));
            }
        }
        lemma_sorted_equal(x.drop_first(), y.drop_first());
        assert(x =~= seq![x[0]] + x.drop_first());
        assert(y =~= seq![y[0]] + y.drop_first());
    }
}

/// Entries with distinct names, listed in any two orders, come out of the
/// name sort identically, so the tree built from them encodes identically.
pub proof fn lemma_sort_order_independent(
    a: Seq<EntryModel>,
    b: Seq<EntryModel>,
    x: Seq<EntryModel>,
    y: Seq<EntryModel>,
)
    requires
        names_unique(a),
        a.to_multiset() == b.to_multiset(),
        is_sorted_arrangement(x, a),
        is_sorted_arrangement(y, b),
    ensures
        x == y,
        encode_object(ObjectModel::Tree(x)) == encode_object(ObjectModel::Tree(y)),
{
    lemma_distinct_names_of_unique(a);
    lemma_sorted_equal(x, y);
}

/// Building a tree from the same entries in any order, after the sort, gives
/// the same hash.
pub proof fn lemma_tree_hash_determinism(
    a: Seq<EntryModel>,
    b: Seq<EntryModel>,
    x: Seq<EntryModel>,
    y: Seq<EntryModel>,
)
    requires
        names_unique(a),
        a.to_multiset() == b.to_multiset(),
        is_sorted_arrangement(x, a),
        is_sorted_arrangement(y, b),
    ensures
        sha1_of(encode_object(ObjectModel::Tree(x))) == sha1_of(
            encode_object(ObjectModel::Tree(y)),
        ),
{
    lemma_sort_order_independent(a, b, x, y);
}

/// Storing the same encoded bytes twice targets the same file with the same
/// compressed bytes under the same hash, and a stored blob reads back as the
/// blob that was stored.
pub proof fn lemma_store_idempotent(content: Seq<u8>, w1: ObjectWrite, w2: ObjectWrite)
    requires
        stores(w1, content),
        stores(w2, content),
    ensures
        w1.hash == w2.hash,
        w1.dir@ == w2.dir@,
        w1.path@ == w2.path@,
        w1.compressed@ == w2.compressed@,
        forall|p: Seq<u8>|
            content == encode_object(ObjectModel::Blob(p)) ==> #[trigger] decode_object(content)
                == Ok::<ObjectModel, ObjectError>(ObjectModel::Blob(p)),
{
    assert(w1.hash@ =~= w2.hash@);
    assert forall|p: Seq<u8>|
        content == encode_object(ObjectModel::Blob(p)) implies #[trigger] decode_object(content)
        == Ok::<ObjectModel, ObjectError>(ObjectModel::Blob(p)) by {
        lemma_blob_round_trip(p);
    }
}

/// One parent line: `parent <hex>\n`.
pub open spec fn parent_line(h: Seq<u8>) -> Seq<u8> {
    parent_word() + hex_lower(h) + seq![10u8]
}

/// Each parent line is 48 bytes long, and the `i`-th stands at `48 * i`.
pub proof fn lemma_parent_lines_layout(ps: Seq<Seq<u8>>)
    requires
        forall|i: int| 0 <= i < ps.len() ==> (#[trigger] ps[i]).len() == 20,
    ensures
        parent_lines(ps).len() == 48 * ps.len(),
        forall|i: int|
            0 <= i < ps.len() ==> parent_lines(ps).subrange(48 * i, 48 * i + 48) == parent_line(
                #[trigger] ps[i],
            ),
    decreases ps.len(),
{
    if ps.len() > 0 {
        let init = ps.drop_last();
        lemma_parent_lines_layout(init);
        let whole = parent_lines(ps);
        assert(whole =~= parent_lines(init) + parent_line(ps.last()));
        assert forall|i: int| 0 <= i < ps.len() implies whole.subrange(48 * i, 48 * i + 48)
            == parent_line(#[trigger] ps[i]) by {
            if i < ps.len() - 1 {
                assert(init[i] == ps[i]);
                assert(whole.subrange(48 * i, 48 * i + 48) =~= parent_lines(init).subrange(
                    48 * i,
                    48 * i + 48,
                ));
            } else {
                assert(whole.subrange(48 * i, 48 * i + 48) =~= parent_line(ps.last()));
            }
        }
    }
}

/// The parent lines of hashes of 20 bytes take 48 bytes each.
pub proof fn lemma_parent_lines_length(ps: Seq<Seq<u8>>)
    requires
        forall|i: int| 0 <= i < ps.len() ==> (#[trigger] ps[i]).len() == 20,
    ensures
        parent_lines(ps).len() == 48 * ps.len(),
{
    lemma_parent_lines_layout(ps);
}

/// In the encoding of a commit, the `i`-th parent line stands at byte
/// `46 + 48 * i`: the parents are written in the order in which they are held.
pub proof fn lemma_commit_parent_lines_in_order(c: CommitModel)
    requires
        c.tree.len() == 20,
        forall|i: int| 0 <= i < c.parents.len() ==> (#[trigger] c.parents[i]).len() == 20,
    ensures
        forall|i: int|
            0 <= i < c.parents.len() ==> commit_payload(c).subrange(46 + 48 * i, 46 + 48 * i + 48)
                == parent_line(#[trigger] c.parents[i]),
{
    lemma_parent_lines_layout(c.parents);
    let pl = parent_lines(c.parents);
    let p = commit_payload(c);
    let head = tree_tag() + seq![32u8] + hex_lower(c.tree) + seq![10u8];
    assert(head.len() == 46);
    assert forall|i: int| 0 <= i < c.parents.len() implies p.subrange(
        46 + 48 * i,
        46 + 48 * i + 48,
    ) == parent_line(#[trigger] c.parents[i]) by {
        assert(p.subrange(46 + 48 * i, 46 + 48 * i + 48) =~= pl.subrange(48 * i, 48 * i + 48));
    }
}

/// Reading the parent lines of a commit's encoding gives back its parents,
/// in the same order.
pub proof fn lemma_commit_parents_read_back(c: CommitModel)
    requires
        c.tree.len() == 20,
        forall|i: int| 0 <= i < c.parents.len() ==> (#[trigger] c.parents[i]).len() == 20,
    ensures
        parse_parents(commit_payload(c), 46) == (c.parents, 46 + 48 * c.parents.len() as int),
{
    lemma_commit_parent_lines_in_order(c);
    lemma_parent_lines_layout(c.parents);
    lemma_author_after_parents(c);
    assert(commit_payload(c).len() >= 46 + 48 * c.parents.len() + 7);
    lemma_parents_from(commit_payload(c), c.parents, c.parents.len() as int);
    assert(c.parents.subrange(0, c.parents.len() as int) =~= c.parents);
}

/// The author line follows the parent lines.
proof fn lemma_author_after_parents(c: CommitModel)
    requires
        c.tree.len() == 20,
        parent_lines(c.parents).len() == 48 * c.parents.len(),
    ensures
        commit_payload(c)[46 + 48 * c.parents.len() as int] == 97,
{
    let head = tree_tag() + seq![32u8] + hex_lower(c.tree) + seq![10u8];
    let pl = parent_lines(c.parents);
    let p = commit_payload(c);
    let tail = p.subrange(46 + pl.len() as int, p.len() as int);
    assert(head.len() == 46);
    assert(p == head + pl + tail) by {
        assert(p =~= head + pl + tail);
    }
    assert(tail[0] == 97);
}

/// A parent line reads back as the hash it was written from.
proof fn lemma_parent_line_reads_back(p: Seq<u8>, at: int, h: Seq<u8>)
    requires
        0 <= at,
        at + 48 <= p.len(),
        h.len() == 20,
        p.subrange(at, at + 48) == parent_line(h),
    ensures
        hash_line_at(p, at, parent_word()),
        hex_decode(p.subrange(at + 7, at + 47)) == h,
{
    let line = p.subrange(at, at + 48);
    lemma_hex_round_trip(h);
    assert(p.subrange(at, at + 7) =~= line.subrange(0, 7));
    assert(line.subrange(0, 7) =~= parent_word());
    assert(p.subrange(at + 7, at + 47) =~= hex_lower(h)) by {
        assert(p.subrange(at + 7, at + 47) =~= line.subrange(7, 47));
    }
    assert(p[at + 47] == line[47]);
    lemma_hex_decode_lower(h);
}

/// Decoding lowercase hex text gives back the bytes.
pub proof fn lemma_hex_decode_lower(h: Seq<u8>)
    ensures
        hex_decode(hex_lower(h)) == h,
{
    lemma_hex_round_trip(h);
    assert forall|j: int| 0 <= j < h.len() implies #[trigger] hex_decode(hex_lower(h))[j]
        == h[j] by {
        assert(h[j] == hex_value(hex_lower(h)[2 * j]) * 16 + hex_value(hex_lower(h)[2 * j + 1]));
    }
    assert(hex_decode(hex_lower(h)) =~= h);
}

proof fn lemma_parents_from(p: Seq<u8>, ps: Seq<Seq<u8>>, k: int)
    requires
        forall|i: int| 0 <= i < ps.len() ==> (#[trigger] ps[i]).len() == 20,
        0 <= k <= ps.len(),
        p.len() >= 46 + 48 * ps.len() + 7,
        p[46 + 48 * ps.len() as int] == 97,
        forall|i: int|
            0 <= i < ps.len() ==> p.subrange(46 + 48 * i, 46 + 48 * i + 48) == parent_line(
                #[trigger] ps[i],
            ),
    ensures
        parse_parents(p, 46 + 48 * (ps.len() - k)) == (
            ps.subrange(ps.len() - k, ps.len() as int),
            46 + 48 * ps.len() as int,
        ),
    decreases k,
{
    let n = ps.len() as int;
    let at = 46 + 48 * (n - k);
    if k == 0 {
        assert(!has_at(p, at, parent_word())) by {
            if has_at(p, at, parent_word()) {
                assert(p.subrange(at, at + 7)[0] == p[at]);
            }
        }
        assert(ps.subrange(n, n) =~= Seq::<Seq<u8>>::empty());
    } else {
        let i = n - k;
        let h = ps[i];
        lemma_parent_line_reads_back(p, at, h);
        lemma_parents_from(p, ps, k - 1);
        assert(46 + 48 * (n - (k - 1)) == at + 48);
        assert(ps.subrange(i, n) =~= seq![h] + ps.subrange(i + 1, n));
    }
}

} // verus!
