//! A routing table with no route: nothing is found in it and a traversal
//! yields nothing. More routes in the arena change nothing in the tables.

use vstd::prelude::*;
use crate::descent::{lemma_child, lemma_table};
use crate::heap::{lemma_heap_index_row, lemma_pow2_grows};
use crate::home::lemma_home;
use crate::model::{Art, Route};
use crate::table::ArtEntry;

verus! {

impl Art {
    /// Whether no slot of any table holds a route.
    pub open spec fn bare(self) -> bool {
        forall|t: int, i: int|
            0 <= t < self.tables.len() && 0 <= i < self.tables[t].entry.len() ==> !(
            #[trigger] self.tables[t].entry[i] is Node)
    }

    /// The model with one more route in the arena, in no slot yet.
    pub open spec fn with_route(self, o: Seq<u8>, plen: nat) -> Art {
        Art { routes: self.routes.push(Route { len: plen, octets: o }), ..self }
    }

    /// The model after a route for `(o, plen)` is taken into the arena
    /// and inserted.
    pub open spec fn add(self, o: Seq<u8>, plen: nat) -> Art {
        self.with_route(o, plen).insert(ArtEntry::Node(self.routes.len() as usize), o, plen as int)
    }
}

/// Where no slot holds a route, the slots of a table yield nothing.
pub proof fn lemma_bare_walk(art: Art, t: int, from: int)
    requires
        art.wf(),
        art.bare(),
        0 <= t < art.tables.len(),
        0 <= from,
    ensures
        art.walk(t, from).len() == 0,
    decreases art.tables.len() - t, art.tables[t].entry.len() - from,
{
    if from < art.tables[t].entry.len() {
        lemma_child(art, t, from);
        match art.tables[t].entry[from] {
            ArtEntry::Table(c) => {
                lemma_bare_walk(art, c as int, 1);
                assert(art.walk_slot(t, from) == art.walk(c as int, 1));
            },
            _ => {
                assert(art.walk_slot(t, from).len() == 0);
            },
        }
        lemma_bare_walk(art, t, from + 1);
        assert(art.walk(t, from) == art.walk_slot(t, from) + art.walk(t, from + 1));
    }
}

/// **The empty table.** Where no slot holds a route, every route stands
/// where it may, no lookup finds a route, and a traversal yields nothing.
pub proof fn lemma_bare(art: Art)
    requires
        art.wf(),
        art.bare(),
    ensures
        art.inv(),
        art.walk_all().len() == 0,
        forall|o: Seq<u8>, plen: int| (#[trigger] art.lookup_exact(o, plen)) is None,
        forall|o: Seq<u8>, plen: int| (#[trigger] art.lookup(o, plen)) is None,
{
    lemma_bare_walk(art, 0, 1);
    assert forall|o: Seq<u8>, plen: int| (#[trigger] art.lookup_exact(o, plen)) is None by {
        lemma_home(art, o, plen);
        if art.home(o, plen) is Some {
            let (t, i) = art.home(o, plen)->Some_0;
            lemma_child(art, t, i);
            match art.tables[t].entry[i] {
                ArtEntry::Table(c) => {
                    lemma_table(art, c as int);
                    assert(!(art.tables[c as int].entry[1] is Node));
                },
                _ => {},
            }
        }
    }
    lemma_table(art, 0);
    assert forall|o: Seq<u8>, plen: int| (#[trigger] art.lookup(o, plen)) is None by {
        lemma_bare_lpm(art, 0, o, plen);
    }
}

/// Where no slot holds a route, the descent finds none.
pub proof fn lemma_bare_lpm(art: Art, at: int, o: Seq<u8>, plen: int)
    requires
        art.wf(),
        art.bare(),
        0 <= at < art.tables.len(),
    ensures
        art.lpm(at, art.tables[at].default(), o, plen) is None,
        art.lpm(at, ArtEntry::Empty, o, plen) is None,
    decreases art.tables.len() - at,
{
    let t = art.tables[at];
    lemma_table(art, at);
    if plen > t.offset + t.bits {
        let j = t.fringe_slot(o) as int;
        lemma_heap_index_row(o, t.offset as int, t.bits);
        lemma_child(art, at, j);
        match t.entry[j] {
            ArtEntry::Table(c) => {
                lemma_table(art, c as int);
                lemma_bare_lpm(art, c as int, o, plen);
            },
            _ => {},
        }
    } else if t.slot(o, plen) is Some {
        let i = t.slot(o, plen)->Some_0 as int;
        lemma_heap_index_row(o, t.offset as int, (plen - t.offset) as nat);
        lemma_pow2_grows((plen - t.offset) as nat, t.bits);
        lemma_child(art, at, i);
        match t.entry[i] {
            ArtEntry::Table(c) => {
                lemma_table(art, c as int);
            },
            _ => {},
        }
    }
}

/// One more route in the arena leaves the tables a tree with every route
/// where it may stand, and changes no lookup and no traversal.
pub proof fn lemma_with_route(art: Art, o: Seq<u8>, plen: nat)
    requires
        art.wf(),
        8 * o.len() >= art.alen(),
    ensures
        art.with_route(o, plen).wf(),
        art.inv() ==> art.with_route(o, plen).inv(),
        art.with_route(o, plen).names(ArtEntry::Node(art.routes.len() as usize), o, plen as int)
            || art.routes.len() > usize::MAX,
        forall|qo: Seq<u8>, ql: int| #[trigger]
            art.with_route(o, plen).lookup_exact(qo, ql) == art.lookup_exact(qo, ql),
        art.with_route(o, plen).walk_all() == art.walk_all(),
{
    let new = art.with_route(o, plen);
    assert forall|n: int| 0 <= n < new.routes.len() implies #[trigger] new.route_ok(n) by {
        if n < art.routes.len() {
            assert(art.route_ok(n));
        }
    }
    assert forall|t: int| 0 <= t < new.tables.len() implies #[trigger] new.table_ok(t) by {
        assert(art.table_ok(t));
    }
    assert forall|t: int, i: int|
        0 <= t < new.tables.len() && 0 <= i < new.tables[t].entry.len() implies #[trigger] new.entry_ok(
        t,
        i,
    ) by {
        assert(art.entry_ok(t, i));
    }
    if art.inv() {
        assert forall|t: int, i: int|
            0 <= t < new.tables.len() && 0 <= i < new.tables[t].entry.len() implies #[trigger] new.placed(
            t,
            i,
        ) by {
            assert(art.placed(t, i));
            assert(art.entry_ok(t, i));
            assert(art.table_ok(t));
            match art.tables[t].entry[i] {
                ArtEntry::Node(n) => {
                    lemma_route_reaches(art, o, plen, art.routes[n as int].octets, t);
                    match art.tables[t].parent {
                        Some(p) => {
                            lemma_route_reaches(art, o, plen, art.routes[n as int].octets, p);
                        },
                        None => {},
                    }
                },
                _ => {},
            }
        }
    }
    assert forall|qo: Seq<u8>, ql: int| #[trigger]
        new.lookup_exact(qo, ql) == art.lookup_exact(qo, ql) by {
        lemma_route_find(art, o, plen, 0, qo, ql);
        lemma_home(art, qo, ql);
        if art.home(qo, ql) is Some {
            let (t, i) = art.home(qo, ql)->Some_0;
            lemma_child(art, t, i);
        }
    }
    lemma_route_walk(art, o, plen, 0, 1);
}

/// One more route in the arena changes no path.
pub proof fn lemma_route_reaches(art: Art, o: Seq<u8>, plen: nat, qo: Seq<u8>, t: int)
    requires
        art.wf(),
        0 <= t < art.tables.len(),
    ensures
        art.with_route(o, plen).reaches(qo, t) == art.reaches(qo, t),
    decreases t,
{
    assert(art.table_ok(t));
    match art.tables[t].parent {
        Some(p) => {
            lemma_route_reaches(art, o, plen, qo, p);
        },
        None => {},
    }
}

/// One more route in the arena changes no descent.
pub proof fn lemma_route_find(art: Art, o: Seq<u8>, plen: nat, s: int, qo: Seq<u8>, ql: int)
    requires
        art.wf(),
        0 <= s < art.tables.len(),
    ensures
        art.with_route(o, plen).find(s, qo, ql) == art.find(s, qo, ql),
    decreases art.tables.len() - s,
{
    let t = art.tables[s];
    if ql > t.offset + t.bits {
        lemma_table(art, s);
        let j = t.fringe_slot(qo) as int;
        lemma_heap_index_row(qo, t.offset as int, t.bits);
        lemma_child(art, s, j);
        if t.entry[j] is Table {
            lemma_route_find(art, o, plen, t.entry[j]->Table_0 as int, qo, ql);
        }
    }
}

/// One more route in the arena changes no traversal.
pub proof fn lemma_route_walk(art: Art, o: Seq<u8>, plen: nat, t: int, from: int)
    requires
        art.wf(),
        0 <= t < art.tables.len(),
        0 <= from,
    ensures
        art.with_route(o, plen).walk(t, from) == art.walk(t, from),
    decreases art.tables.len() - t, art.tables[t].entry.len() - from,
{
    let new = art.with_route(o, plen);
    if from < art.tables[t].entry.len() {
        lemma_child(art, t, from);
        match art.tables[t].entry[from] {
            ArtEntry::Table(c) => {
                lemma_route_walk(art, o, plen, c as int, 1);
                assert(art.walk_slot(t, from) == art.walk(c as int, 1));
                assert(new.walk_slot(t, from) == new.walk(c as int, 1));
            },
            ArtEntry::Node(n) => {
                assert(new.at_home(t, from, n as int) == art.at_home(t, from, n as int));
                assert(new.walk_slot(t, from) == art.walk_slot(t, from));
            },
            ArtEntry::Empty => {
                assert(new.walk_slot(t, from) == art.walk_slot(t, from));
            },
        }
        lemma_route_walk(art, o, plen, t, from + 1);
        assert(art.walk(t, from) == art.walk_slot(t, from) + art.walk(t, from + 1));
        assert(new.walk(t, from) == new.walk_slot(t, from) + new.walk(t, from + 1));
    } else {
        assert(art.walk(t, from) == Seq::<usize>::empty());
        assert(new.walk(t, from) == Seq::<usize>::empty());
    }
}

} // verus!
