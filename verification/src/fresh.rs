//! Tables in which every slot's route is a stored route: one that an exact
//! lookup of its own prefix finds. Insertions and deletions leave no other
//! route behind, so a lookup never finds one.

use vstd::prelude::*;
use crate::descent::{lemma_child, lemma_graft_wf, lemma_level_below, lemma_root, lemma_table};
use crate::emits::lemma_found_stored;
use crate::empty::lemma_with_route;
use crate::exact::{lemma_clear, lemma_delete_exact, lemma_insert_exact, lemma_place};
use crate::grow::{
    lemma_graft_exact, lemma_graft_inv, lemma_graft_reaches, lemma_graft_slot, lemma_grow,
    lemma_grow_len,
};
use crate::heap::{in_subtree, lemma_heap_index_row, lemma_subtree_below, lemma_subtree_fringe};
use crate::home::{lemma_covers_len, lemma_home};
use crate::model::Art;
use crate::placement::{lemma_exact_same, lemma_reaches_find};
use crate::prefix::same_prefix;
use crate::shape::{lemma_visit_slot, same_frame};
use crate::table::ArtEntry;

verus! {

impl Art {
    /// Whether a route in slot `i` of table `t` is a stored route.
    pub open spec fn fresh_at(self, t: int, i: int) -> bool {
        self.tables[t].entry[i] matches ArtEntry::Node(n) ==> self.stored(n)
    }

    /// Whether every route in a slot is a stored route.
    pub open spec fn fresh(self) -> bool {
        forall|t: int, i: int|
            0 <= t < self.tables.len() && 1 <= i < self.tables[t].entry.len()
                ==> #[trigger] self.fresh_at(t, i)
    }
}

/// A table without routes has no route that is not stored.
pub proof fn lemma_bare_fresh(art: Art)
    requires
        art.bare(),
    ensures
        art.fresh(),
{
    assert forall|t: int, i: int|
        0 <= t < art.tables.len() && 1 <= i < art.tables[t].entry.len() implies #[trigger] art.fresh_at(
        t,
        i,
    ) by {
        assert(!(art.tables[t].entry[i] is Node));
    }
}

/// Where a route stands, seen from the slot in which its prefix ends: in
/// the subtree of that slot, or in slot 1 of a table that hangs there.
pub proof fn lemma_where(art: Art, t: int, j: int, m: usize)
    requires
        art.wf(),
        art.inv(),
        0 <= t < art.tables.len(),
        1 <= j < art.tables[t].entry.len(),
        art.tables[t].entry[j] == ArtEntry::Node(m),
    ensures
        art.seat(m) matches Some((at, i)) && {
            ||| (t == at && in_subtree(i, j))
            ||| (j == 1 && art.tables[t].parent == Some(at) && in_subtree(
                i,
                art.tables[t].index as int,
            ))
        },
{
    let r = art.routes[m as int];
    assert(art.placed(t, j));
    assert(art.table_ok(t));
    lemma_root(art);
    lemma_table(art, t);
    if j >= 2 {
        lemma_reaches_find(art, r.octets, r.len as int, t);
    } else {
        match art.tables[t].parent {
            Some(p) => {
                lemma_table(art, p);
                lemma_reaches_find(art, r.octets, r.len as int, p);
            },
            None => {
                assert(art.seat(m) == Some((0int, 1int)));
            },
        }
    }
}

/// The subtree of a fringe slot holds that slot alone, so a table hangs
/// in the subtree only if it hangs in the slot.
pub proof fn lemma_fringe_alone(art: Art, at: int, i: int, t: int, j: int)
    requires
        art.wf(),
        0 <= at < art.tables.len(),
        art.tables[at].fringe() <= i < art.tables[at].entry.len(),
        0 <= t < art.tables.len(),
        1 <= j < art.tables[t].entry.len(),
    ensures
        t == at && in_subtree(i, j) ==> j == i,
        art.tables[t].parent == Some(at) && in_subtree(i, art.tables[t].index as int)
            ==> art.tables[t].index == i,
{
    lemma_table(art, at);
    let f = art.tables[at].fringe() as int;
    if t == at && j > i {
        lemma_subtree_fringe(i, j, f);
    }
    if art.tables[t].parent == Some(at) {
        assert(art.table_ok(t));
        if art.tables[t].index > i {
            lemma_subtree_fringe(i, art.tables[t].index as int, f);
        }
    }
}

/// One more route in the arena leaves no route that is not stored.
pub proof fn lemma_route_fresh(art: Art, o: Seq<u8>, plen: nat)
    requires
        art.wf(),
        art.fresh(),
        8 * o.len() >= art.alen(),
    ensures
        art.with_route(o, plen).fresh(),
{
    let new = art.with_route(o, plen);
    lemma_with_route(art, o, plen);
    assert forall|t: int, i: int|
        0 <= t < new.tables.len() && 1 <= i < new.tables[t].entry.len() implies #[trigger] new.fresh_at(
        t,
        i,
    ) by {
        assert(art.fresh_at(t, i));
    }
}

/// A new table leaves no route that is not stored.
pub proof fn lemma_graft_fresh(art: Art, at: int, j: int)
    requires
        art.wf(),
        art.fresh(),
        art.tables.len() < usize::MAX,
        0 <= at < art.tables.len(),
        art.tables[at].fringe() <= j < art.tables[at].entry.len(),
        !(art.tables[at].entry[j] is Table),
        art.tables[at].level + 1 < art.strides.len(),
    ensures
        art.graft(at, j).fresh(),
{
    let new = art.graft(at, j);
    let c = art.tables.len() as int;
    lemma_table(art, at);
    assert forall|t: int, i: int|
        0 <= t < new.tables.len() && 1 <= i < new.tables[t].entry.len() implies #[trigger] new.fresh_at(
        t,
        i,
    ) by {
        lemma_graft_slot(art, at, j, t, i);
        lemma_graft_slot(art, at, j, at, 0);
        match new.tables[t].entry[i] {
            ArtEntry::Node(n) => {
                if t < c {
                    assert(art.fresh_at(t, i));
                } else {
                    assert(art.fresh_at(at, j));
                }
                lemma_graft_exact(
                    art,
                    at,
                    j,
                    art.routes[n as int].octets,
                    art.routes[n as int].len as int,
                );
            },
            _ => {},
        }
    }
}

/// The growth of a path leaves no route that is not stored.
pub proof fn lemma_grow_fresh(art: Art, at: int, o: Seq<u8>, plen: int)
    requires
        art.wf(),
        art.inv(),
        art.fresh(),
        art.grow(at, o, plen).0.tables.len() <= usize::MAX,
        0 <= at < art.tables.len(),
        art.reaches(o, at),
        plen <= art.alen(),
        at == 0 || plen > art.tables[at].offset,
    ensures
        art.grow(at, o, plen).0.fresh(),
    decreases art.strides.len() - art.tables[at].level,
{
    let t = art.tables[at];
    lemma_table(art, at);
    if plen > t.offset + t.bits {
        lemma_level_below(art, at, plen);
        let j = t.fringe_slot(o) as int;
        lemma_heap_index_row(o, t.offset as int, t.bits);
        lemma_child(art, at, j);
        match t.entry[j] {
            ArtEntry::Table(c) => {
                lemma_grow_fresh(art, c as int, o, plen);
            },
            _ => {
                let next = art.graft(at, j);
                let c = art.tables.len() as int;
                lemma_graft_slot(art, at, j, c, 0);
                lemma_grow_len(next, c, o, plen);
                lemma_graft_wf(art, at, j);
                lemma_graft_inv(art, at, j);
                lemma_graft_fresh(art, at, j);
                lemma_graft_reaches(art, at, j, o, c);
                lemma_grow_fresh(next, c, o, plen);
            },
        }
    }
}

/// Where the route of a prefix stands, seen from the slot in which the
/// prefix ends: in the subtree of that slot, or in slot 1 of a table that
/// hangs there. It is the route that stands for the prefix there.
pub proof fn lemma_found_where(art: Art, o: Seq<u8>, plen: int, t: int, j: int)
    requires
        art.wf(),
        art.inv(),
        0 <= plen,
        art.home(o, plen) is Some,
        art.lookup_exact(o, plen) is Some,
        0 <= t < art.tables.len(),
        1 <= j < art.tables[t].entry.len(),
        art.tables[t].entry[j] == ArtEntry::Node(art.lookup_exact(o, plen)->Some_0),
    ensures
        ({
            let (at, i) = art.home(o, plen)->Some_0;
            ||| (t == at && in_subtree(i, j))
            ||| (j == 1 && art.tables[t].parent == Some(at) && in_subtree(
                i,
                art.tables[t].index as int,
            ))
        }),
{
    let old = art.lookup_exact(o, plen)->Some_0;
    lemma_found_stored(art, o, plen);
    lemma_exact_same(art, o, art.routes[old as int].octets, plen);
    lemma_where(art, t, j, old);
}

/// The route that stands for a prefix is the route that an exact lookup
/// of the prefix finds.
pub proof fn lemma_found_holder(art: Art, o: Seq<u8>, plen: int)
    requires
        art.wf(),
        art.home(o, plen) is Some,
        art.lookup_exact(o, plen) is Some,
    ensures
        art.holder(art.home(o, plen)->Some_0.0, art.home(o, plen)->Some_0.1) == ArtEntry::Node(
            art.lookup_exact(o, plen)->Some_0,
        ),
{
    lemma_home(art, o, plen);
}

/// Allotment from the slot where a prefix ends, in place of what stood for
/// the prefix, leaves the route of the prefix in no slot.
pub proof fn lemma_allot_gone(
    art: Art,
    at: int,
    i: int,
    new: ArtEntry,
    o: Seq<u8>,
    plen: int,
    t: int,
    j: int,
)
    requires
        art.wf(),
        art.inv(),
        0 <= plen,
        art.home(o, plen) == Some((at, i)),
        i < art.tables[at].fringe(),
        art.is_leaf(new),
        0 <= t < art.tables.len(),
        1 <= j < art.tables[t].entry.len(),
    ensures
        ({
            let now = art.allot(at, i, art.previous(at, i), new).tables[t].entry[j];
            &&& now == new || now == art.tables[t].entry[j]
            &&& art.lookup_exact(o, plen) matches Some(old) ==> new != ArtEntry::Node(old) ==> now
                != ArtEntry::Node(old)
        }),
{
    let prev = art.previous(at, i);
    let sel = |k: int| in_subtree(i, k);
    lemma_home(art, o, plen);
    lemma_child(art, at, i);
    lemma_child(art, t, j);
    lemma_visit_slot(art, at, sel, prev, new, t, j);
    if art.lookup_exact(o, plen) is Some {
        lemma_found_holder(art, o, plen);
        if art.tables[t].entry[j] == ArtEntry::Node(art.lookup_exact(o, plen)->Some_0) {
            lemma_found_where(art, o, plen, t, j);
        }
    }
}

/// The replacement of what stands for a prefix at the fringe leaves the
/// route of the prefix in no slot.
pub proof fn lemma_put_gone(
    art: Art,
    at: int,
    i: int,
    new: ArtEntry,
    o: Seq<u8>,
    plen: int,
    t: int,
    j: int,
)
    requires
        art.wf(),
        art.inv(),
        0 <= plen,
        art.home(o, plen) == Some((at, i)),
        i >= art.tables[at].fringe() || (at == 0 && i == 1),
        0 <= t < art.tables.len(),
        1 <= j < art.tables[t].entry.len(),
    ensures
        ({
            let now = (match art.tables[at].entry[i] {
                ArtEntry::Table(c) => art.with_entry(c as int, 1, new),
                _ => art.with_entry(at, i, new),
            }).tables[t].entry[j];
            &&& now == new || now == art.tables[t].entry[j]
            &&& art.lookup_exact(o, plen) matches Some(old) ==> new != ArtEntry::Node(old) ==> now
                != ArtEntry::Node(old)
        }),
{
    lemma_home(art, o, plen);
    lemma_root(art);
    lemma_child(art, at, i);
    lemma_child(art, t, j);
    lemma_table(art, at);
    match art.tables[at].entry[i] {
        ArtEntry::Table(c) => {
            lemma_table(art, c as int);
        },
        _ => {},
    }
    if art.lookup_exact(o, plen) is Some {
        lemma_found_holder(art, o, plen);
        if art.tables[t].entry[j] == ArtEntry::Node(art.lookup_exact(o, plen)->Some_0) {
            lemma_found_where(art, o, plen, t, j);
            assert(art.table_ok(t));
            if i >= art.tables[at].fringe() {
                lemma_fringe_alone(art, at, i, t, j);
            } else {
                assert(art.placed(t, j));
                if j >= 2 {
                    lemma_covers_len(art, t, j, art.lookup_exact(o, plen)->Some_0 as int);
                } else if t != 0 {
                    let p = art.tables[t].parent->Some_0;
                    lemma_covers_len(
                        art,
                        p,
                        art.tables[t].index as int,
                        art.lookup_exact(o, plen)->Some_0 as int,
                    );
                }
            }
        }
    }
}

/// Putting a route in the slot where its prefix ends leaves the route
/// that it replaces in no slot.
pub proof fn lemma_place_gone(
    art: Art,
    at: int,
    i: int,
    an: ArtEntry,
    o: Seq<u8>,
    plen: int,
    t: int,
    j: int,
)
    requires
        art.wf(),
        art.inv(),
        plen >= 1,
        art.home(o, plen) == Some((at, i)),
        art.names(an, o, plen),
        0 <= t < art.tables.len(),
        1 <= j < art.tables[t].entry.len(),
    ensures
        ({
            let now = art.place(at, i, an).tables[t].entry[j];
            &&& now == an || now == art.tables[t].entry[j]
            &&& art.lookup_exact(o, plen) matches Some(old) ==> old != an->Node_0 ==> now
                != ArtEntry::Node(old)
        }),
{
    let v = art.tables[at];
    lemma_home(art, o, plen);
    lemma_child(art, at, i);
    if v.entry[i] == an {
        if art.lookup_exact(o, plen) is Some {
            lemma_found_holder(art, o, plen);
        }
    } else if i < v.fringe() {
        lemma_allot_gone(art, at, i, an, o, plen, t, j);
    } else {
        lemma_put_gone(art, at, i, an, o, plen, t, j);
    }
}

/// **Insertions leave no stale route.** After the insertion of a route
/// for its prefix, every route in a slot is a stored route, if that was so
/// before.
pub proof fn lemma_insert_fresh(art: Art, an: ArtEntry, o: Seq<u8>, plen: int)
    requires
        art.wf(),
        art.inv(),
        art.fresh(),
        art.insert(an, o, plen).tables.len() <= usize::MAX,
        0 <= plen,
        art.names(an, o, plen),
    ensures
        art.insert(an, o, plen).fresh(),
{
    let new = art.insert(an, o, plen);
    let n = an->Node_0;
    lemma_root(art);
    lemma_table(art, 0);
    if plen <= art.alen() {
        lemma_insert_exact(art, an, o, plen);
        assert(same_prefix(o, plen, o, plen));
        if plen == 0 {
            assert(art.home(o, plen) == Some((0int, 1int)));
            lemma_home(art, o, plen);
            assert forall|t: int, j: int|
                0 <= t < new.tables.len() && 1 <= j < new.tables[t].entry.len() implies #[trigger] new.fresh_at(
                t,
                j,
            ) by {
                assert(art.fresh_at(t, j));
                match new.tables[t].entry[j] {
                    ArtEntry::Node(m) => {
                        if m != n {
                            let r = art.routes[m as int];
                            if same_prefix(o, plen, r.octets, r.len as int) {
                                lemma_exact_same(art, o, r.octets, plen);
                                lemma_where(art, t, j, m);
                                assert(art.placed(t, j));
                            }
                        }
                    },
                    _ => {},
                }
            }
        } else {
            let (grown, at) = art.grow(0, o, plen);
            match grown.tables[at].slot(o, plen) {
                Some(i) => {
                    assert(grown.place(at, i as int, an).tables.len() == grown.tables.len());
                },
                None => {},
            }
            lemma_grow(art, 0, o, plen);
            lemma_grow_fresh(art, 0, o, plen);
            lemma_home(grown, o, plen);
            lemma_root(grown);
            let i = grown.home(o, plen)->Some_0.1;
            lemma_place(grown, at, i, an, o, plen);
            assert forall|t: int, j: int|
                0 <= t < new.tables.len() && 1 <= j < new.tables[t].entry.len() implies #[trigger] new.fresh_at(
                t,
                j,
            ) by {
                assert(same_frame(grown.tables[t], new.tables[t]));
                lemma_place_gone(grown, at, i, an, o, plen, t, j);
                assert(grown.fresh_at(t, j));
                match new.tables[t].entry[j] {
                    ArtEntry::Node(m) => {
                        if m != n {
                            let r = grown.routes[m as int];
                            if same_prefix(o, plen, r.octets, r.len as int) {
                                lemma_exact_same(grown, o, r.octets, plen);
                            }
                        }
                    },
                    _ => {},
                }
            }
        }
    }
}

/// Clearing the slot where a prefix ends leaves the route of the prefix in
/// no slot.
pub proof fn lemma_clear_gone(art: Art, at: int, i: int, o: Seq<u8>, plen: int, t: int, j: int)
    requires
        art.wf(),
        art.inv(),
        0 <= plen,
        art.home(o, plen) == Some((at, i)),
        0 <= t < art.tables.len(),
        1 <= j < art.tables[t].entry.len(),
    ensures
        ({
            let now = art.clear(at, i).tables[t].entry[j];
            &&& now is Empty || now == art.tables[t].entry[j] || (i >= 4 && now
                == art.tables[at].entry[i / 2])
            &&& art.lookup_exact(o, plen) matches Some(old) ==> now != ArtEntry::Node(old)
        }),
{
    let v = art.tables[at];
    let next = art.restored(at, i);
    let empty = ArtEntry::Empty;
    lemma_home(art, o, plen);
    lemma_root(art);
    lemma_child(art, at, i);
    lemma_child(art, at, i / 2);
    lemma_table(art, at);
    if i < v.fringe() {
        if art.lookup_exact(o, plen) is Some && i >= 4 && next == ArtEntry::Node(
            art.lookup_exact(o, plen)->Some_0,
        ) {
            lemma_found_where(art, o, plen, at, i / 2);
            lemma_subtree_below(i, i / 2);
        }
        lemma_allot_gone(art, at, i, next, o, plen, t, j);
    } else {
        lemma_put_gone(art, at, i, empty, o, plen, t, j);
        if art.lookup_exact(o, plen) is Some {
            lemma_found_holder(art, o, plen);
        }
    }
}

/// **Deletions leave no stale route.** After the deletion of a prefix,
/// every route in a slot is a stored route, if that was so before.
pub proof fn lemma_delete_fresh(art: Art, o: Seq<u8>, plen: int)
    requires
        art.wf(),
        art.inv(),
        art.fresh(),
        0 <= plen,
    ensures
        art.delete(o, plen).fresh(),
{
    let new = art.delete(o, plen);
    lemma_delete_exact(art, o, plen);
    lemma_home(art, o, plen);
    if plen <= art.alen() && art.home(o, plen) is Some {
        let (at, i) = art.home(o, plen)->Some_0;
        lemma_table(art, at);
        lemma_clear(art, at, i, o, plen);
        assert forall|t: int, j: int|
            0 <= t < new.tables.len() && 1 <= j < new.tables[t].entry.len() implies #[trigger] new.fresh_at(
            t,
            j,
        ) by {
            assert(same_frame(art.tables[t], new.tables[t]));
            lemma_clear_gone(art, at, i, o, plen, t, j);
            assert(art.fresh_at(t, j));
            if i >= 4 {
                assert(art.fresh_at(at, i / 2));
            }
            match new.tables[t].entry[j] {
                ArtEntry::Node(m) => {
                    let r = art.routes[m as int];
                    if same_prefix(o, plen, r.octets, r.len as int) {
                        lemma_exact_same(art, o, r.octets, plen);
                    }
                },
                _ => {},
            }
        }
    }
}

} // verus!
