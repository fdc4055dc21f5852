//! Tables in which every route has been handed down as far as it reaches:
//! every slot holds the route that ends in it, or what the slot above it
//! holds. Insertions keep a table so; deletions need not.

use vstd::prelude::*;
use crate::descent::{lemma_child, lemma_graft_wf, lemma_level_below, lemma_root, lemma_table};
use crate::grow::{
    lemma_graft_inv, lemma_graft_reaches, lemma_graft_slot, lemma_grow, lemma_grow_len,
};
use crate::heap::{in_subtree, lemma_heap_index_row, lemma_subtree_below, lemma_subtree_row, row};
use crate::home::{lemma_holder_len, lemma_home};
use crate::model::Art;
use crate::shape::{lemma_visit_shape, lemma_visit_slot};
use crate::table::ArtEntry;

verus! {

impl Art {
    /// Whether what stands for the prefix of slot `i` of table `t` is a
    /// route of exactly that prefix length.
    pub open spec fn owned(self, t: int, i: int) -> bool {
        self.holder(t, i) matches ArtEntry::Node(n) && self.routes[n as int].len
            == self.tables[t].offset + row(i)
    }

    /// Whether slot `i` of table `t` holds the route that ends in it, or
    /// else what the slot above it holds.
    pub open spec fn full_at(self, t: int, i: int) -> bool {
        i >= 2 ==> self.owned(t, i) || self.holder(t, i) == self.restored(t, i)
    }

    /// Whether every route has been handed down to every slot that it
    /// covers and that no longer route has taken.
    pub open spec fn full(self) -> bool {
        forall|t: int, i: int|
            0 <= t < self.tables.len() && 0 <= i < self.tables[t].entry.len()
                ==> #[trigger] self.full_at(t, i)
    }
}

/// In a full table, below a slot that holds a route every slot holds one.
pub proof fn lemma_full_below(art: Art, t: int, i: int, k: int)
    requires
        art.wf(),
        art.full(),
        0 <= t < art.tables.len(),
        2 <= i,
        in_subtree(i, k),
        k < art.tables[t].entry.len(),
        art.holder(t, i) is Node,
    ensures
        art.holder(t, k) is Node,
    decreases k,
{
    if k != i {
        lemma_full_below(art, t, i, k / 2);
        assert(art.full_at(t, k));
        lemma_table(art, t);
        lemma_child(art, t, k / 2);
        lemma_subtree_below(i, k / 2);
    }
}

/// A table without routes is full.
pub proof fn lemma_bare_full(art: Art)
    requires
        art.wf(),
        art.bare(),
    ensures
        art.full(),
{
    assert forall|t: int, i: int|
        0 <= t < art.tables.len() && 0 <= i < art.tables[t].entry.len() implies #[trigger] art.full_at(
        t,
        i,
    ) by {
        lemma_child(art, t, i);
        lemma_child(art, t, i / 2);
        lemma_table(art, t);
        assert(!(art.tables[t].entry[i] is Node));
        assert(!(art.tables[t].entry[i / 2] is Node));
        match art.tables[t].entry[i] {
            ArtEntry::Table(c) => {
                lemma_table(art, c as int);
                assert(!(art.tables[c as int].entry[1] is Node));
            },
            _ => {},
        }
    }
}

/// One more route in the arena keeps a table full.
pub proof fn lemma_route_full(art: Art, o: Seq<u8>, plen: nat)
    requires
        art.wf(),
        art.full(),
    ensures
        art.with_route(o, plen).full(),
{
    let new = art.with_route(o, plen);
    assert forall|t: int, i: int|
        0 <= t < new.tables.len() && 0 <= i < new.tables[t].entry.len() implies #[trigger] new.full_at(
        t,
        i,
    ) by {
        assert(art.full_at(t, i));
        lemma_child(art, t, i);
    }
}

/// A new table keeps a table full.
pub proof fn lemma_graft_full(art: Art, at: int, j: int)
    requires
        art.wf(),
        art.full(),
        art.tables.len() < usize::MAX,
        0 <= at < art.tables.len(),
        art.tables[at].fringe() <= j < art.tables[at].entry.len(),
        !(art.tables[at].entry[j] is Table),
        art.tables[at].level + 1 < art.strides.len(),
    ensures
        art.graft(at, j).full(),
{
    let new = art.graft(at, j);
    let c = art.tables.len() as int;
    lemma_table(art, at);
    assert forall|t: int, i: int|
        0 <= t < new.tables.len() && 0 <= i < new.tables[t].entry.len() implies #[trigger] new.full_at(
        t,
        i,
    ) by {
        lemma_graft_slot(art, at, j, t, i);
        lemma_graft_slot(art, at, j, t, i / 2);
        lemma_graft_slot(art, at, j, c, 1);
        if i >= 2 {
            if t < c {
                assert(art.full_at(t, i));
                lemma_child(art, t, i);
                lemma_child(art, t, i / 2);
                match art.tables[t].entry[i] {
                    ArtEntry::Table(d) => {
                        lemma_table(art, d as int);
                        lemma_graft_slot(art, at, j, d as int, 1);
                    },
                    _ => {},
                }
            }
        }
    }
}

/// The growth of a path keeps a table full.
pub proof fn lemma_grow_full(art: Art, at: int, o: Seq<u8>, plen: int)
    requires
        art.wf(),
        art.inv(),
        art.full(),
        art.grow(at, o, plen).0.tables.len() <= usize::MAX,
        0 <= at < art.tables.len(),
        art.reaches(o, at),
        plen <= art.alen(),
        at == 0 || plen > art.tables[at].offset,
    ensures
        art.grow(at, o, plen).0.full(),
    decreases art.strides.len() - art.tables[at].level,
{
    let t = art.tables[at];
    lemma_table(art, at);
    if plen > t.offset + t.bits {
        lemma_level_below(art, at, plen);
        let j = t.fringe_slot(o) as int;
        lemma_heap_index_row(o, t.offset as int, t.bits);
        lemma_child(art, at, j);
        match t.entry[j] {
            ArtEntry::Table(c) => {
                lemma_grow_full(art, c as int, o, plen);
            },
            _ => {
                let next = art.graft(at, j);
                let c = art.tables.len() as int;
                lemma_graft_slot(art, at, j, c, 0);
                lemma_grow_len(next, c, o, plen);
                lemma_graft_wf(art, at, j);
                lemma_graft_inv(art, at, j);
                lemma_graft_full(art, at, j);
                lemma_graft_reaches(art, at, j, o, c);
                lemma_grow_full(next, c, o, plen);
            },
        }
    }
}

/// Putting a route in the slot where its prefix ends keeps a table full.
pub proof fn lemma_place_full(art: Art, at: int, i: int, an: ArtEntry, o: Seq<u8>, plen: int)
    requires
        art.wf(),
        art.inv(),
        art.full(),
        plen >= 1,
        art.home(o, plen) == Some((at, i)),
        art.names(an, o, plen),
    ensures
        art.place(at, i, an).full(),
{
    let new = art.place(at, i, an);
    let v = art.tables[at];
    let prev = art.previous(at, i);
    let sel = |j: int| in_subtree(i, j);
    lemma_home(art, o, plen);
    lemma_root(art);
    lemma_child(art, at, i);
    lemma_table(art, at);
    lemma_holder_len(art, at, i);
    if v.entry[i] != an {
        if i < v.fringe() {
            lemma_visit_shape(art, at, sel, prev, an);
        }
        assert forall|t: int, j: int|
            0 <= t < new.tables.len() && 0 <= j < new.tables[t].entry.len() implies #[trigger] new.full_at(
            t,
            j,
        ) by {
            assert(art.full_at(t, j));
            lemma_child(art, t, j);
            lemma_child(art, t, j / 2);
            lemma_table(art, t);
            if j >= 2 {
                if i < v.fringe() {
                    lemma_visit_slot(art, at, sel, prev, an, t, j);
                    lemma_visit_slot(art, at, sel, prev, an, t, j / 2);
                    match art.tables[t].entry[j] {
                        ArtEntry::Table(d) => {
                            lemma_table(art, d as int);
                            lemma_visit_slot(art, at, sel, prev, an, d as int, 1);
                        },
                        _ => {},
                    }
                    if t == at && in_subtree(i, j) && j != i {
                        lemma_subtree_row(i, j);
                        lemma_subtree_below(i, j);
                        if art.holder(at, i) is Node {
                            lemma_full_below(art, at, i, j / 2);
                            lemma_full_below(art, at, i, j);
                        }
                    }
                } else {
                    match art.tables[t].entry[j] {
                        ArtEntry::Table(d) => {
                            lemma_table(art, d as int);
                        },
                        _ => {},
                    }
                }
            }
        }
    }
}

/// **Insertions keep a table full.** After the insertion of a route for
/// its prefix into a full table, the table is full.
pub proof fn lemma_insert_full(art: Art, an: ArtEntry, o: Seq<u8>, plen: int)
    requires
        art.wf(),
        art.inv(),
        art.full(),
        art.insert(an, o, plen).tables.len() <= usize::MAX,
        0 <= plen,
        art.names(an, o, plen),
    ensures
        art.insert(an, o, plen).full(),
{
    let new = art.insert(an, o, plen);
    lemma_root(art);
    lemma_table(art, 0);
    if plen > art.alen() {
    } else if plen == 0 {
        assert forall|t: int, j: int|
            0 <= t < new.tables.len() && 0 <= j < new.tables[t].entry.len() implies #[trigger] new.full_at(
            t,
            j,
        ) by {
            assert(art.full_at(t, j));
            lemma_child(art, t, j);
            lemma_child(art, t, j / 2);
            match art.tables[t].entry[j] {
                ArtEntry::Table(d) => {
                    lemma_table(art, d as int);
                },
                _ => {},
            }
        }
    } else {
        let (grown, at) = art.grow(0, o, plen);
        match grown.tables[at].slot(o, plen) {
            Some(i) => {
                assert(grown.place(at, i as int, an).tables.len() == grown.tables.len());
            },
            None => {},
        }
        lemma_grow(art, 0, o, plen);
        lemma_grow_full(art, 0, o, plen);
        lemma_home(grown, o, plen);
        lemma_root(grown);
        let i = grown.home(o, plen)->Some_0.1;
        lemma_place_full(grown, at, i, an, o, plen);
    }
}

impl Art {
    /// Whether the deletion of the prefix `(o, plen)` hands down again
    /// what the route of the prefix had taken: the prefix ends above the
    /// fringe of its table, or the slot above its slot holds nothing.
    pub open spec fn restores(self, o: Seq<u8>, plen: int) -> bool {
        match self.home(o, plen) {
            Some((at, i)) => i < self.tables[at].fringe() || self.restored(at, i) is Empty,
            None => true,
        }
    }
}

/// Allotment of what the slot above holds, from a slot above the fringe
/// and in place of what the slot held, keeps one slot of a full table as
/// a full table has it.
proof fn lemma_restore_full_at(art: Art, at: int, i: int, t: int, j: int)
    requires
        art.wf(),
        art.inv(),
        art.full(),
        0 <= at < art.tables.len(),
        1 <= i < art.tables[at].fringe(),
        i >= 2 || at == 0,
        0 <= t < art.tables.len(),
        2 <= j < art.tables[t].entry.len(),
    ensures
        art.allot(at, i, art.previous(at, i), art.restored(at, i)).full_at(t, j),
{
    let prev = art.previous(at, i);
    let next = art.restored(at, i);
    let sel = |k: int| in_subtree(i, k);
    let new = art.allot(at, i, prev, next);
    lemma_table(art, at);
    lemma_child(art, at, i);
    lemma_child(art, at, i / 2);
    lemma_root(art);
    assert(art.full_at(t, j));
    lemma_child(art, t, j);
    lemma_child(art, t, j / 2);
    lemma_table(art, t);
    lemma_visit_slot(art, at, sel, prev, next, t, j);
    lemma_visit_slot(art, at, sel, prev, next, t, j / 2);
    match art.tables[t].entry[j] {
        ArtEntry::Table(d) => {
            lemma_table(art, d as int);
            lemma_visit_slot(art, at, sel, prev, next, d as int, 1);
        },
        _ => {},
    }
    if t == at && in_subtree(i, j) {
        lemma_subtree_below(i, j);
        if j != i {
            lemma_subtree_row(i, j);
            assert(in_subtree(i, j / 2));
            if i >= 2 {
                lemma_holder_len(art, at, i);
                if art.holder(at, i) is Node {
                    lemma_full_below(art, at, i, j / 2);
                    lemma_full_below(art, at, i, j);
                }
            } else {
                assert(art.placed(0, 1));
                lemma_holder_len(art, at, j);
            }
        } else {
            assert(!in_subtree(i, i / 2)) by {
                reveal_with_fuel(in_subtree, 2);
            }
        }
    } else if t == at {
        assert(!in_subtree(i, j / 2)) by {
            reveal_with_fuel(in_subtree, 2);
        }
    }
}

/// Clearing the slot where a prefix ends keeps a table full, if the slot
/// lies above the fringe or the slot above it holds nothing.
pub proof fn lemma_clear_full(art: Art, at: int, i: int, o: Seq<u8>, plen: int)
    requires
        art.wf(),
        art.inv(),
        art.full(),
        0 <= plen,
        art.home(o, plen) == Some((at, i)),
        art.restores(o, plen),
    ensures
        art.clear(at, i).full(),
{
    let new = art.clear(at, i);
    let v = art.tables[at];
    lemma_home(art, o, plen);
    lemma_root(art);
    lemma_child(art, at, i);
    lemma_child(art, at, i / 2);
    lemma_table(art, at);
    if i < v.fringe() {
        lemma_visit_shape(
            art,
            at,
            |k: int| in_subtree(i, k),
            art.previous(at, i),
            art.restored(at, i),
        );
        assert forall|t: int, j: int|
            0 <= t < new.tables.len() && 0 <= j < new.tables[t].entry.len() implies #[trigger] new.full_at(
            t,
            j,
        ) by {
            lemma_table(art, t);
            if j >= 2 {
                lemma_restore_full_at(art, at, i, t, j);
            }
        }
    } else {
        assert forall|t: int, j: int|
            0 <= t < new.tables.len() && 0 <= j < new.tables[t].entry.len() implies #[trigger] new.full_at(
            t,
            j,
        ) by {
            assert(art.full_at(t, j));
            lemma_child(art, t, j);
            lemma_child(art, t, j / 2);
            lemma_table(art, t);
            match art.tables[t].entry[j] {
                ArtEntry::Table(d) => {
                    lemma_table(art, d as int);
                },
                _ => {},
            }
            match v.entry[i] {
                ArtEntry::Table(c) => {
                    lemma_table(art, c as int);
                },
                _ => {},
            }
        }
    }
}

/// **Deletions that keep a table full.** After the deletion of a prefix
/// that ends above the fringe of its table, or below a slot that holds
/// nothing, a full table is full.
pub proof fn lemma_delete_full(art: Art, o: Seq<u8>, plen: int)
    requires
        art.wf(),
        art.inv(),
        art.full(),
        0 <= plen,
        art.restores(o, plen),
    ensures
        art.delete(o, plen).full(),
{
    if plen <= art.alen() && art.home(o, plen) is Some {
        let (at, i) = art.home(o, plen)->Some_0;
        lemma_clear_full(art, at, i, o, plen);
    }
}

} // verus!
