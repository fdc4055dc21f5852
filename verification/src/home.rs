//! The slot in which a prefix ends, and what the steps of an insertion or
//! a deletion do to the entry that stands for the prefix there.

use vstd::prelude::*;
use crate::descent::{lemma_child, lemma_root, lemma_table};
use crate::heap::{
    heap_index, in_subtree, lemma_heap_index_row, lemma_heap_index_up, lemma_pow2_grows,
    lemma_subtree_below, lemma_subtree_nest, lemma_subtree_row, row,
};
use crate::model::{Art, lemma_with_entry_wf};
use crate::placement::lemma_find_reaches;
use crate::shape::{
    lemma_shape_find, lemma_shape_reaches, lemma_visit_shape, lemma_visit_slot,
    lemma_with_entry_shape, same_frame,
};
use crate::table::ArtEntry;

verus! {

impl Art {
    /// The table and the slot in which the prefix `(o, plen)` ends, where
    /// the tables on its path exist.
    pub open spec fn home(self, o: Seq<u8>, plen: int) -> Option<(int, int)> {
        match self.find(0, o, plen) {
            Some(at) => match self.tables[at].slot(o, plen) {
                Some(i) => Some((at, i as int)),
                None => None,
            },
            None => None,
        }
    }
}

/// The slot in which a prefix ends lies in a table that the prefix reaches,
/// in the row of the bits that the prefix has there; only at the root can
/// it be slot 1. An exact lookup reads what stands for the prefix there.
pub proof fn lemma_home(art: Art, o: Seq<u8>, plen: int)
    requires
        art.wf(),
    ensures
        art.home(o, plen) is None ==> art.lookup_exact(o, plen) is None,
        art.home(o, plen) matches Some((t, i)) ==> {
            &&& 0 <= t < art.tables.len()
            &&& 1 <= i < art.tables[t].entry.len()
            &&& art.find(0, o, plen) == Some(t)
            &&& art.reaches(o, t)
            &&& art.tables[t].offset <= plen <= art.tables[t].offset + art.tables[t].bits
            &&& i == heap_index(o, art.tables[t].offset as int, (plen - art.tables[t].offset) as nat)
            &&& row(i) == plen - art.tables[t].offset
            &&& (t != 0 ==> i >= 2 && plen > art.tables[t].offset)
            &&& (i == 1 ==> plen == 0)
            &&& art.lookup_exact(o, plen) == art.route_of_len(art.holder(t, i), plen)
        },
{
    if art.home(o, plen) is Some {
        let (t, i) = art.home(o, plen)->Some_0;
        lemma_root(art);
        lemma_find_reaches(art, 0, o, plen);
        lemma_table(art, t);
        let v = art.tables[t];
        let n = (plen - v.offset) as nat;
        lemma_heap_index_up(o, v.offset as int, n);
        lemma_heap_index_row(o, v.offset as int, n);
        lemma_pow2_grows(n, v.bits);
    }
}

/// In the same tree a route covers the same slots.
pub proof fn lemma_shape_covers(a: Art, b: Art, t: int, i: int, n: int)
    requires
        a.wf(),
        a.same_shape(b),
        0 <= t < a.tables.len(),
    ensures
        a.covers(t, i, n) == b.covers(t, i, n),
{
    assert(same_frame(a.tables[t], b.tables[t]));
    lemma_shape_reaches(a, b, a.routes[n].octets, t);
}

/// A route that covers a slot covers every slot below it.
pub proof fn lemma_covers_below(art: Art, t: int, i: int, j: int, n: int)
    requires
        art.covers(t, i, n),
        in_subtree(i, j),
    ensures
        art.covers(t, j, n),
{
    let r = art.routes[n];
    let v = art.tables[t];
    lemma_subtree_nest(
        heap_index(r.octets, v.offset as int, (r.len - v.offset) as nat) as int,
        i,
        j,
    );
}

/// A route that covers a slot is at most as long as the prefix of the
/// slot.
pub proof fn lemma_covers_len(art: Art, t: int, i: int, n: int)
    requires
        art.covers(t, i, n),
    ensures
        art.routes[n].len <= art.tables[t].offset + row(i),
{
    let r = art.routes[n];
    let v = art.tables[t];
    lemma_heap_index_up(r.octets, v.offset as int, (r.len - v.offset) as nat);
    lemma_subtree_row(heap_index(r.octets, v.offset as int, (r.len - v.offset) as nat) as int, i);
}

/// Where every route stands where it may, what stands for the prefix of a
/// slot is a route that is at most as long as that prefix.
pub proof fn lemma_holder_len(art: Art, t: int, i: int)
    requires
        art.wf(),
        art.inv(),
        0 <= t < art.tables.len(),
        1 <= i < art.tables[t].entry.len(),
        t != 0 ==> i >= 2,
    ensures
        art.holder(t, i) matches ArtEntry::Node(n) ==> n < art.routes.len() && art.routes[n as int].len
            <= art.tables[t].offset + row(i),
        art.holder(t, i) matches ArtEntry::Node(n) ==> (i >= 2 ==> art.covers(t, i, n as int)),
{
    lemma_child(art, t, i);
    lemma_root(art);
    assert(art.placed(t, i));
    match art.tables[t].entry[i] {
        ArtEntry::Table(c) => {
            lemma_table(art, c as int);
            assert(art.placed(c as int, 1));
            if art.tables[c as int].default() is Node {
                lemma_covers_len(art, t, i, art.tables[c as int].default()->Node_0 as int);
            }
        },
        ArtEntry::Node(n) => {
            if i >= 2 {
                lemma_covers_len(art, t, i, n as int);
            } else {
                assert(art.table_ok(0));
            }
        },
        ArtEntry::Empty => {},
    }
}

/// Allotment keeps every route where it may stand, if the new entry is a
/// route that covers the slot from which it is allotted.
pub proof fn lemma_allot_inv(art: Art, at: int, k: int, prev: ArtEntry, new: ArtEntry)
    requires
        art.wf(),
        art.inv(),
        0 <= at < art.tables.len(),
        1 <= k < art.tables[at].entry.len(),
        art.is_leaf(new),
        new matches ArtEntry::Node(m) ==> k >= 2 && art.covers(at, k, m as int),
    ensures
        art.allot(at, k, prev, new).inv(),
        art.allot(at, k, prev, new).wf(),
        art.same_shape(art.allot(at, k, prev, new)),
{
    let sel = |j: int| in_subtree(k, j);
    let b = art.visit(at, sel, prev, new);
    lemma_visit_shape(art, at, sel, prev, new);
    assert forall|t: int, i: int|
        0 <= t < b.tables.len() && 0 <= i < b.tables[t].entry.len() implies #[trigger] b.placed(
        t,
        i,
    ) by {
        lemma_visit_slot(art, at, sel, prev, new, t, i);
        assert(art.placed(t, i));
        assert(art.table_ok(t));
        match b.tables[t].entry[i] {
            ArtEntry::Node(n) => {
                if b.tables[t].entry[i] == art.tables[t].entry[i] {
                    if i >= 2 {
                        lemma_shape_covers(art, b, t, i, n as int);
                    } else if i == 1 {
                        match art.tables[t].parent {
                            Some(p) => {
                                lemma_shape_covers(art, b, p, art.tables[t].index as int, n as int);
                            },
                            None => {},
                        }
                    }
                } else {
                    assert(new == ArtEntry::Node(n));
                    if t == at {
                        lemma_subtree_below(k, i);
                        lemma_covers_below(art, at, k, i, n as int);
                        lemma_shape_covers(art, b, at, i, n as int);
                    } else {
                        let j = art.tables[t].index as int;
                        lemma_covers_below(art, at, k, j, n as int);
                        lemma_shape_covers(art, b, at, j, n as int);
                    }
                }
            },
            _ => {},
        }
    }
}

/// What allotment does to the entry that stands for a prefix: the prefix
/// ends where it ended; its entry changes only in the subtree of the slot
/// from which the new entry is allotted, only to the new entry, and only
/// from nothing or from the previous entry. At the top of the subtree it
/// is the new entry where it was the previous one.
pub proof fn lemma_allot_holder(
    art: Art,
    at: int,
    k: int,
    prev: ArtEntry,
    new: ArtEntry,
    o: Seq<u8>,
    plen: int,
)
    requires
        art.wf(),
        0 <= at < art.tables.len(),
        1 <= k < art.tables[at].entry.len(),
        k >= 2 || at == 0,
        art.is_leaf(new),
    ensures
        art.allot(at, k, prev, new).home(o, plen) == art.home(o, plen),
        art.home(o, plen) matches Some((t, i)) ==> {
            let was = art.holder(t, i);
            let now = art.allot(at, k, prev, new).holder(t, i);
            &&& now != was ==> t == at && in_subtree(k, i) && now == new && (was == prev
                || was is Empty)
            &&& t == at && i == k && was == prev ==> now == new
        },
{
    let sel = |j: int| in_subtree(k, j);
    let b = art.visit(at, sel, prev, new);
    lemma_visit_shape(art, at, sel, prev, new);
    lemma_shape_find(art, b, 0, o, plen);
    if art.find(0, o, plen) is Some {
        let t = art.find(0, o, plen)->Some_0;
        lemma_root(art);
        lemma_find_reaches(art, 0, o, plen);
        assert(same_frame(art.tables[t], b.tables[t]));
    }
    if art.home(o, plen) is Some {
        let (t, i) = art.home(o, plen)->Some_0;
        lemma_home(art, o, plen);
        lemma_visit_slot(art, at, sel, prev, new, t, i);
        lemma_child(art, t, i);
        lemma_root(art);
        assert(art.table_ok(at));
        match art.tables[t].entry[i] {
            ArtEntry::Table(c) => {
                lemma_table(art, c as int);
                lemma_visit_slot(art, at, sel, prev, new, c as int, 1);
            },
            _ => {},
        }
    }
}

/// What the replacement of one entry does to the entry that stands for a
/// prefix: the prefix ends where it ended, and its entry changes only
/// where it is the replaced one.
pub proof fn lemma_put_holder(art: Art, u: int, j: int, e: ArtEntry, o: Seq<u8>, plen: int)
    requires
        art.wf(),
        0 <= u < art.tables.len(),
        0 <= j < art.tables[u].entry.len(),
        !(art.tables[u].entry[j] is Table),
        art.is_leaf(e),
    ensures
        art.with_entry(u, j, e).home(o, plen) == art.home(o, plen),
        art.home(o, plen) matches Some((t, i)) ==> {
            let was = art.holder(t, i);
            let now = art.with_entry(u, j, e).holder(t, i);
            &&& (t == u && i == j) ==> now == e
            &&& (j == 1 && art.tables[t].entry[i] == ArtEntry::Table(u as usize)) ==> now == e
            &&& !(t == u && i == j) && !(j == 1 && art.tables[t].entry[i] == ArtEntry::Table(
                u as usize,
            )) ==> now == was
        },
{
    let b = art.with_entry(u, j, e);
    lemma_with_entry_shape(art, u, j, e);
    lemma_shape_find(art, b, 0, o, plen);
    if art.find(0, o, plen) is Some {
        let t = art.find(0, o, plen)->Some_0;
        lemma_root(art);
        lemma_find_reaches(art, 0, o, plen);
        assert(same_frame(art.tables[t], b.tables[t]));
    }
    if art.home(o, plen) is Some {
        let (t, i) = art.home(o, plen)->Some_0;
        lemma_home(art, o, plen);
        lemma_child(art, t, i);
        match art.tables[t].entry[i] {
            ArtEntry::Table(c) => {
                lemma_table(art, c as int);
            },
            _ => {},
        }
    }
}

/// The replacement of one entry keeps every route where it may stand, if
/// the new entry is a route that may stand in the slot.
pub proof fn lemma_put_inv(art: Art, u: int, j: int, e: ArtEntry)
    requires
        art.wf(),
        art.inv(),
        0 <= u < art.tables.len(),
        0 <= j < art.tables[u].entry.len(),
        !(art.tables[u].entry[j] is Table),
        art.is_leaf(e),
        art.with_entry(u, j, e).placed(u, j),
    ensures
        art.with_entry(u, j, e).inv(),
        art.with_entry(u, j, e).wf(),
{
    let b = art.with_entry(u, j, e);
    lemma_with_entry_shape(art, u, j, e);
    lemma_with_entry_wf(art, u, j, e);
    assert forall|t: int, i: int|
        0 <= t < b.tables.len() && 0 <= i < b.tables[t].entry.len() implies #[trigger] b.placed(
        t,
        i,
    ) by {
        assert(art.placed(t, i));
        assert(art.table_ok(t));
        if !(t == u && i == j) {
            match b.tables[t].entry[i] {
                ArtEntry::Node(n) => {
                    if i >= 2 {
                        lemma_shape_covers(art, b, t, i, n as int);
                    } else if i == 1 {
                        match art.tables[t].parent {
                            Some(p) => {
                                lemma_shape_covers(art, b, p, art.tables[t].index as int, n as int);
                            },
                            None => {},
                        }
                    }
                },
                _ => {},
            }
        }
    }
}

} // verus!
