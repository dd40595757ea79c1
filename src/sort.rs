//! The canonical order of tree entries: names compared as raw bytes, a proper
//! prefix first. No separator is appended to directory names before the
//! comparison; since the order is part of a tree's encoding, it is part of
//! its hash.

use vstd::prelude::*;
use crate::decode::entries_view;
use crate::object::{EntryModel, Tree, TreeEntry};

verus! {

broadcast use {vstd::seq_lib::group_to_multiset_ensures, vstd::multiset::group_multiset_axioms};

/// Byte-wise lexicographic order on names: a proper prefix comes first.
pub open spec fn name_lt(a: Seq<u8>, b: Seq<u8>) -> bool
    decreases a.len(),
{
    if a.len() == 0 {
        b.len() > 0
    } else if b.len() == 0 {
        false
    } else if a[0] != b[0] {
        a[0] < b[0]
    } else {
        name_lt(a.drop_first(), b.drop_first())
    }
}

/// No name comes before itself or before a name that comes before it.
pub proof fn lemma_name_lt_asymmetric(a: Seq<u8>, b: Seq<u8>)
    ensures
        name_lt(a, b) ==> !name_lt(b, a),
    decreases a.len(),
{
    if a.len() > 0 && b.len() > 0 && a[0] == b[0] {
        lemma_name_lt_asymmetric(a.drop_first(), b.drop_first());
    }
}

/// The order is transitive.
pub proof fn lemma_name_lt_transitive(a: Seq<u8>, b: Seq<u8>, c: Seq<u8>)
    requires
        name_lt(a, b),
        name_lt(b, c),
    ensures
        name_lt(a, c),
    decreases a.len(),
{
    if a.len() > 0 && b.len() > 0 && c.len() > 0 && a[0] == b[0] && b[0] == c[0] {
        lemma_name_lt_transitive(a.drop_first(), b.drop_first(), c.drop_first());
    }
}

/// Of two different names, one comes first.
pub proof fn lemma_name_lt_total(a: Seq<u8>, b: Seq<u8>)
    requires
        a != b,
    ensures
        name_lt(a, b) || name_lt(b, a),
    decreases a.len(),
{
    if a.len() == 0 {
        assert(b.len() > 0) by {
            if b.len() == 0 {
                assert(a =~= b);
            }
        }
    } else if b.len() > 0 && a[0] == b[0] {
        if a.drop_first() == b.drop_first() {
            assert(a =~= seq![a[0]] + a.drop_first());
            assert(b =~= seq![b[0]] + b.drop_first());
        }
        lemma_name_lt_total(a.drop_first(), b.drop_first());
    }
}

/// Whether `a` comes strictly before `b`.
pub fn name_less(a: &[u8], b: &[u8]) -> (r: bool)
    ensures
        r == name_lt(a@, b@),
{
    let mut i: usize = 0;
    proof {
        assert(a@.subrange(0, a@.len() as int) =~= a@);
        assert(b@.subrange(0, b@.len() as int) =~= b@);
    }
    while i < a.len() && i < b.len()
        invariant
            i <= a@.len(),
            i <= b@.len(),
            name_lt(a@, b@) == name_lt(
                a@.subrange(i as int, a@.len() as int),
                b@.subrange(i as int, b@.len() as int),
            ),
        decreases a@.len() - i,
    {
        let ghost sa = a@.subrange(i as int, a@.len() as int);
        let ghost sb = b@.subrange(i as int, b@.len() as int);
        if a[i] != b[i] {
            proof {
                assert(sa[0] == a@[i as int] && sb[0] == b@[i as int]);
            }
            return a[i] < b[i];
        }
        proof {
            assert(sa.drop_first() =~= a@.subrange(i + 1, a@.len() as int));
            assert(sb.drop_first() =~= b@.subrange(i + 1, b@.len() as int));
        }
        i = i + 1;
    }
    i == a.len() && i < b.len()
}

/// Entries in name order (equal names, if any, side by side).
pub open spec fn sorted_by_name(es: Seq<EntryModel>) -> bool {
    forall|i: int, j: int| 0 <= i < j < es.len() ==> !name_lt(#[trigger] es[j].name, #[trigger] es[i].name)
}

/// No two entries share a name.
pub open spec fn names_unique(es: Seq<EntryModel>) -> bool {
    forall|i: int, j: int| 0 <= i < j < es.len() ==> #[trigger] es[i].name != #[trigger] es[j].name
}

/// `sorted` holds the entries of `input`, each as often, in name order.
pub open spec fn is_sorted_arrangement(sorted: Seq<EntryModel>, input: Seq<EntryModel>) -> bool {
    sorted_by_name(sorted) && sorted.to_multiset() == input.to_multiset()
}

impl Tree {
    /// The invariant of a tree built here: entries in name order, no name twice.
    pub open spec fn wf(&self) -> bool {
        sorted_by_name(self@) && names_unique(self@)
    }

    /// A tree of the given entries, put in name order; with distinct names
    /// it satisfies the tree invariant. No entries give the empty tree, which
    /// is a valid object of its own.
    pub fn from_entries(entries: Vec<TreeEntry>) -> (r: Tree)
        ensures
            is_sorted_arrangement(r@, entries_view(entries@)),
            names_unique(entries_view(entries@)) ==> r.wf(),
    {
        let ghost all = entries_view(entries@);
        let mut input = entries;
        let mut out: Vec<TreeEntry> = Vec::new();
        proof {
            assert(entries_view(out@) =~= Seq::<EntryModel>::empty());
        }
        while input.len() > 0
            invariant
                sorted_by_name(entries_view(out@)),
                entries_view(out@).to_multiset().add(entries_view(input@).to_multiset())
                    == all.to_multiset(),
            decreases input@.len(),
        {
            let ghost in_before = input@;
            let e = input.pop().unwrap();
            proof {
                assert(in_before =~= input@.push(e));
                assert(entries_view(in_before) =~= entries_view(input@).push(e@));
            }
            let mut k: usize = 0;
            loop
                invariant
                    k <= out@.len(),
                    forall|j: int| 0 <= j < k ==> !name_lt(e.name@, #[trigger] out@[j].name@),
                ensures
                    k <= out@.len(),
                    forall|j: int| 0 <= j < k ==> !name_lt(e.name@, #[trigger] out@[j].name@),
                    k < out@.len() ==> name_lt(e.name@, out@[k as int].name@),
                decreases out@.len() - k,
            {
                if k >= out.len() {
                    break;
                }
                if name_less(e.name.as_slice(), out[k].name.as_slice()) {
                    break;
                }
                k = k + 1;
            }
            let ghost ov = entries_view(out@);
            out.insert(k, e);
            proof {
                let nv = entries_view(out@);
                assert(nv =~= ov.insert(k as int, e@));
                assert forall|i: int, j: int| 0 <= i < j < nv.len() implies !name_lt(
                    #[trigger] nv[j].name,
                    #[trigger] nv[i].name,
                ) by {
                    if j == k {
                        assert(nv[i] == ov[i]);
                    } else if i == k {
                        let oj = ov[j - 1];
                        assert(nv[j] == oj);
                        lemma_name_lt_asymmetric(e@.name, ov[k as int].name);
                        if j - 1 > k {
                            if name_lt(oj.name, e@.name) {
                                lemma_name_lt_transitive(oj.name, e@.name, ov[k as int].name);
                            }
                        }
                    } else if i < k && j < k {
                    } else if i < k {
                        assert(nv[j] == ov[j - 1]);
                    } else {
                        assert(nv[i] == ov[i - 1] && nv[j] == ov[j - 1]);
                    }
                }
            }
        }
        proof {
            assert(entries_view(input@) =~= Seq::<EntryModel>::empty());
            assert(entries_view(out@).to_multiset().add(Seq::<EntryModel>::empty().to_multiset())
                =~= entries_view(out@).to_multiset());
            if names_unique(all) {
                crate::laws::lemma_arrangement_keeps_names_unique(all, entries_view(out@));
            }
        }
        Tree { entries: out }
    }
}

} // verus!
