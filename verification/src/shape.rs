//! Changes that leave the tree of tables as it is: those that replace
//! routes and empty slots by routes and empty slots.

use vstd::prelude::*;
use crate::descent::{lemma_child, lemma_table};
use crate::heap::lemma_heap_index_row;
use crate::model::{Art, allot_entry};
use crate::table::{ArtEntry, TableView};

verus! {

/// Whether two tables differ in their entries at most.
pub open spec fn same_frame(a: TableView, b: TableView) -> bool {
    &&& a.level == b.level
    &&& a.bits == b.bits
    &&& a.offset == b.offset
    &&& a.index == b.index
    &&& a.parent == b.parent
    &&& a.entry.len() == b.entry.len()
}

/// Whether two entries name the same table, or no table either.
pub open spec fn same_kind(a: ArtEntry, b: ArtEntry) -> bool {
    if a is Table || b is Table {
        a == b
    } else {
        true
    }
}

impl Art {
    /// Whether slot `i` of table `t` names the same table in both models,
    /// or no table in either.
    pub open spec fn kept(self, other: Art, t: int, i: int) -> bool {
        same_kind(self.tables[t].entry[i], other.tables[t].entry[i])
    }

    /// Whether slot `i` of table `t` names something that exists, if it
    /// names no table.
    pub open spec fn leaf_ok(self, t: int, i: int) -> bool {
        !(self.tables[t].entry[i] is Table) ==> self.is_leaf(self.tables[t].entry[i])
    }

    /// Whether `other` has the same tree of tables and the same routes as
    /// this model.
    pub open spec fn same_shape(self, other: Art) -> bool {
        &&& self.strides == other.strides
        &&& self.routes == other.routes
        &&& self.tables.len() == other.tables.len()
        &&& forall|t: int|
            0 <= t < self.tables.len() ==> same_frame(#[trigger] self.tables[t], other.tables[t])
        &&& forall|t: int, i: int|
            0 <= t < self.tables.len() && 0 <= i < self.tables[t].entry.len()
                ==> #[trigger] self.kept(other, t, i)
    }
}

/// A model has its own tree.
pub proof fn lemma_shape_same(art: Art)
    ensures
        art.same_shape(art),
{
    assert forall|t: int, i: int|
        0 <= t < art.tables.len() && 0 <= i < art.tables[t].entry.len() implies #[trigger] art.kept(
        art,
        t,
        i,
    ) by {}
}

/// In the same tree the descent along a prefix ends in the same table.
pub proof fn lemma_shape_find(a: Art, b: Art, s: int, o: Seq<u8>, plen: int)
    requires
        a.wf(),
        a.same_shape(b),
        0 <= s < a.tables.len(),
    ensures
        a.find(s, o, plen) == b.find(s, o, plen),
    decreases a.tables.len() - s,
{
    let t = a.tables[s];
    assert(same_frame(a.tables[s], b.tables[s]));
    if plen > t.offset + t.bits {
        lemma_table(a, s);
        let j = t.fringe_slot(o) as int;
        lemma_heap_index_row(o, t.offset as int, t.bits);
        lemma_child(a, s, j);
        assert(a.kept(b, s, j));
        if t.entry[j] is Table {
            lemma_shape_find(a, b, t.entry[j]->Table_0 as int, o, plen);
        }
    }
}

/// In the same tree the same octet strings reach a table.
pub proof fn lemma_shape_reaches(a: Art, b: Art, o: Seq<u8>, t: int)
    requires
        a.wf(),
        a.same_shape(b),
        0 <= t < a.tables.len(),
    ensures
        a.reaches(o, t) == b.reaches(o, t),
    decreases t,
{
    assert(a.table_ok(t));
    assert(same_frame(a.tables[t], b.tables[t]));
    match a.tables[t].parent {
        Some(p) => {
            assert(same_frame(a.tables[p], b.tables[p]));
            lemma_shape_reaches(a, b, o, p);
        },
        None => {},
    }
}

/// The same tree with routes that exist in its slots is a tree again.
pub proof fn lemma_shape_wf(a: Art, b: Art)
    requires
        a.wf(),
        a.same_shape(b),
        forall|t: int, i: int|
            0 <= t < b.tables.len() && 0 <= i < b.tables[t].entry.len() ==> #[trigger] b.leaf_ok(
                t,
                i,
            ),
    ensures
        b.wf(),
{
    assert(same_frame(a.tables[0], b.tables[0]));
    assert forall|n: int| 0 <= n < b.routes.len() implies #[trigger] b.route_ok(n) by {
        assert(a.route_ok(n));
    }
    assert forall|t: int| 0 <= t < b.tables.len() implies #[trigger] b.table_ok(t) by {
        assert(a.table_ok(t));
        assert(same_frame(a.tables[t], b.tables[t]));
        match a.tables[t].parent {
            Some(p) => {
                assert(a.table_ok(p));
                assert(same_frame(a.tables[p], b.tables[p]));
                assert(a.kept(b, p, a.tables[t].index as int));
            },
            None => {},
        }
    }
    assert forall|t: int, i: int|
        0 <= t < b.tables.len() && 0 <= i < b.tables[t].entry.len() implies #[trigger] b.entry_ok(
        t,
        i,
    ) by {
        assert(same_frame(a.tables[t], b.tables[t]));
        assert(a.kept(b, t, i));
        assert(a.entry_ok(t, i));
        match b.tables[t].entry[i] {
            ArtEntry::Table(c) => {
                assert(same_frame(a.tables[c as int], b.tables[c as int]));
            },
            _ => {
                assert(b.leaf_ok(t, i));
            },
        }
    }
}

/// What a visit makes of each slot: in the visited table a selected slot
/// is allotted; slot 1 of a child that hangs in a selected slot takes the
/// new entry where it holds the previous one; every other slot stays.
pub proof fn lemma_visit_slot(
    art: Art,
    at: int,
    sel: spec_fn(int) -> bool,
    prev: ArtEntry,
    new: ArtEntry,
    t: int,
    i: int,
)
    requires
        art.wf(),
        0 <= at < art.tables.len(),
        0 <= t < art.tables.len(),
        0 <= i < art.tables[t].entry.len(),
    ensures
        same_frame(art.tables[t], art.visit(at, sel, prev, new).tables[t]),
        art.visit(at, sel, prev, new).tables[t].entry[i] == if t == at {
            if sel(i) {
                allot_entry(art.tables[t].entry[i], prev, new)
            } else {
                art.tables[t].entry[i]
            }
        } else if i == 1 && art.tables[t].parent == Some(at) && sel(art.tables[t].index as int)
            && art.tables[t].default() == prev {
            new
        } else {
            art.tables[t].entry[i]
        },
{
    lemma_table(art, t);
}

/// A visit with an entry that names no table leaves the tree as it is.
pub proof fn lemma_visit_shape(art: Art, at: int, sel: spec_fn(int) -> bool, prev: ArtEntry, new: ArtEntry)
    requires
        art.wf(),
        0 <= at < art.tables.len(),
        art.is_leaf(new),
    ensures
        art.same_shape(art.visit(at, sel, prev, new)),
        art.visit(at, sel, prev, new).wf(),
{
    let b = art.visit(at, sel, prev, new);
    assert forall|t: int| 0 <= t < art.tables.len() implies same_frame(
        #[trigger] art.tables[t],
        b.tables[t],
    ) by {
        lemma_table(art, t);
        lemma_visit_slot(art, at, sel, prev, new, t, 1);
    }
    assert forall|t: int, i: int|
        0 <= t < art.tables.len() && 0 <= i < art.tables[t].entry.len() implies #[trigger] art.kept(
        b,
        t,
        i,
    ) by {
        lemma_visit_slot(art, at, sel, prev, new, t, i);
        lemma_child(art, t, i);
        lemma_table(art, t);
    }
    assert forall|t: int, i: int|
        0 <= t < b.tables.len() && 0 <= i < b.tables[t].entry.len() implies #[trigger] b.leaf_ok(
        t,
        i,
    ) by {
        lemma_visit_slot(art, at, sel, prev, new, t, i);
        lemma_child(art, t, i);
    }
    lemma_shape_wf(art, b);
}

/// Replacing a slot that holds no table by an entry that names none leaves
/// the tree as it is.
pub proof fn lemma_with_entry_shape(art: Art, t: int, i: int, e: ArtEntry)
    requires
        art.wf(),
        0 <= t < art.tables.len(),
        0 <= i < art.tables[t].entry.len(),
        !(art.tables[t].entry[i] is Table),
        art.is_leaf(e),
    ensures
        art.same_shape(art.with_entry(t, i, e)),
{
    let b = art.with_entry(t, i, e);
    assert forall|u: int, j: int|
        0 <= u < art.tables.len() && 0 <= j < art.tables[u].entry.len() implies #[trigger] art.kept(
        b,
        u,
        j,
    ) by {}
}

} // verus!
