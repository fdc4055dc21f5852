//! Many routes at once: what a table holds after a sequence of additions,
//! and after every one of them is deleted again.

use vstd::prelude::*;
use crate::count::lemma_add;
use crate::emits::lemma_walk_stored;
use crate::empty::{lemma_bare, lemma_with_route};
use crate::exact::lemma_delete_exact;
use crate::fresh::{lemma_delete_fresh, lemma_insert_fresh, lemma_route_fresh};
use crate::full::{lemma_bare_full, lemma_insert_full, lemma_route_full};
use crate::grow::lemma_grow_len;
use crate::longest::lemma_lookup_longest;
use crate::model::{Art, Route};
use crate::prefix::{same_bits, same_prefix};
use crate::table::ArtEntry;

verus! {

/// Whether no two of the prefixes are the same prefix.
pub open spec fn distinct(items: Seq<Route>) -> bool {
    forall|a: int, b: int|
        0 <= a < items.len() && 0 <= b < items.len() && a != b ==> !same_prefix(
            #[trigger] items[a].octets,
            items[a].len as int,
            #[trigger] items[b].octets,
            items[b].len as int,
        )
}

impl Art {
    /// Whether each of the prefixes can be added: it is no longer than the
    /// address and has an octet for every bit of an address.
    pub open spec fn admits(self, items: Seq<Route>) -> bool {
        forall|k: int|
            0 <= k < items.len() ==> (#[trigger] items[k]).len <= self.alen() && 8
                * items[k].octets.len() >= self.alen()
    }

    /// Whether the table holds a route of none of the prefixes.
    pub open spec fn lacks(self, items: Seq<Route>) -> bool {
        forall|k: int|
            0 <= k < items.len() ==> self.lookup_exact(
                (#[trigger] items[k]).octets,
                items[k].len as int,
            ) is None
    }

    /// The model after a route is added for each of the prefixes, in
    /// their order.
    pub open spec fn add_all(self, items: Seq<Route>) -> Art
        decreases items.len(),
    {
        if items.len() == 0 {
            self
        } else {
            self.add_all(items.drop_last()).add(items.last().octets, items.last().len)
        }
    }

    /// The model after each of the prefixes is deleted, in their order.
    pub open spec fn delete_all(self, items: Seq<Route>) -> Art
        decreases items.len(),
    {
        if items.len() == 0 {
            self
        } else {
            self.delete_all(items.drop_last()).delete(
                items.last().octets,
                items.last().len as int,
            )
        }
    }
}

/// An insertion takes no table away.
pub proof fn lemma_insert_len(art: Art, an: ArtEntry, o: Seq<u8>, plen: int)
    ensures
        art.tables.len() <= art.insert(an, o, plen).tables.len(),
        art.insert(an, o, plen).routes == art.routes,
        art.insert(an, o, plen).strides == art.strides,
{
    if plen <= art.alen() && plen != 0 {
        lemma_grow_len(art, 0, o, plen);
        lemma_grow_keeps(art, 0, o, plen);
        let (grown, at) = art.grow(0, o, plen);
        match grown.tables[at].slot(o, plen) {
            Some(i) => {
                assert(grown.place(at, i as int, an).tables.len() == grown.tables.len());
            },
            None => {},
        }
    }
}

/// The growth of a path changes neither the strides nor the routes.
pub proof fn lemma_grow_keeps(art: Art, at: int, o: Seq<u8>, plen: int)
    ensures
        art.grow(at, o, plen).0.routes == art.routes,
        art.grow(at, o, plen).0.strides == art.strides,
    decreases art.strides.len() - art.tables[at].level,
{
    let t = art.tables[at];
    if plen > t.offset + t.bits && t.level + 1 < art.strides.len() && 0 <= at < art.tables.len() {
        let j = t.fringe_slot(o) as int;
        match t.entry[j] {
            ArtEntry::Table(c) => {
                if art.tables[c as int].level == t.level + 1 {
                    lemma_grow_keeps(art, c as int, o, plen);
                }
            },
            _ => {
                lemma_grow_keeps(art.graft(at, j), art.tables.len() as int, o, plen);
            },
        }
    }
}

/// A sequence of additions takes no table away and adds one route to the
/// arena for each prefix.
pub proof fn lemma_add_all_len(art: Art, items: Seq<Route>)
    ensures
        art.tables.len() <= art.add_all(items).tables.len(),
        art.add_all(items).routes.len() == art.routes.len() + items.len(),
        art.add_all(items).strides == art.strides,
    decreases items.len(),
{
    if items.len() > 0 {
        let before = art.add_all(items.drop_last());
        lemma_add_all_len(art, items.drop_last());
        let last = items.last();
        lemma_insert_len(
            before.with_route(last.octets, last.len),
            ArtEntry::Node(before.routes.len() as usize),
            last.octets,
            last.len as int,
        );
    }
}

/// Whether `(qo, ql)` is one of the prefixes.
pub open spec fn hits(items: Seq<Route>, qo: Seq<u8>, ql: int) -> bool {
    exists|k: int|
        0 <= k < items.len() && same_prefix(
            (#[trigger] items[k]).octets,
            items[k].len as int,
            qo,
            ql,
        )
}

/// A prefix is one of a sequence of prefixes if it is the last of them or
/// one of those before it.
proof fn lemma_hits_last(items: Seq<Route>, qo: Seq<u8>, ql: int)
    requires
        items.len() > 0,
    ensures
        hits(items, qo, ql) <==> hits(items.drop_last(), qo, ql) || same_prefix(
            items.last().octets,
            items.last().len as int,
            qo,
            ql,
        ),
{
    let rest = items.drop_last();
    let n = items.len() - 1;
    if hits(items, qo, ql) {
        let k = choose|k: int|
            0 <= k < items.len() && same_prefix(
                (#[trigger] items[k]).octets,
                items[k].len as int,
                qo,
                ql,
            );
        if k < n {
            assert(rest[k] == items[k]);
        }
    }
    if hits(rest, qo, ql) {
        let k = choose|k: int|
            0 <= k < rest.len() && same_prefix(
                (#[trigger] rest[k]).octets,
                rest[k].len as int,
                qo,
                ql,
            );
        assert(items[k] == rest[k]);
    }
    if same_prefix(items.last().octets, items.last().len as int, qo, ql) {
        assert(items[n] == items.last());
    }
}

/// The first prefixes of a sequence that can be added, of distinct
/// prefixes, of prefixes that the table lacks, are so too.
proof fn lemma_rest(art: Art, items: Seq<Route>)
    requires
        items.len() > 0,
    ensures
        art.admits(items) ==> art.admits(items.drop_last()),
        distinct(items) ==> distinct(items.drop_last()),
        art.lacks(items) ==> art.lacks(items.drop_last()),
        distinct(items) ==> !hits(items.drop_last(), items.last().octets, items.last().len as int),
{
    let rest = items.drop_last();
    let n = items.len() - 1;
    if art.admits(items) {
        assert forall|k: int| 0 <= k < rest.len() implies (#[trigger] rest[k]).len <= art.alen()
            && 8 * rest[k].octets.len() >= art.alen() by {
            assert(rest[k] == items[k]);
        }
    }
    if distinct(items) {
        assert forall|a: int, b: int|
            0 <= a < rest.len() && 0 <= b < rest.len() && a != b implies !same_prefix(
            #[trigger] rest[a].octets,
            rest[a].len as int,
            #[trigger] rest[b].octets,
            rest[b].len as int,
        ) by {
            assert(rest[a] == items[a]);
            assert(rest[b] == items[b]);
        }
        if hits(rest, items.last().octets, items.last().len as int) {
            let k = choose|k: int|
                0 <= k < rest.len() && same_prefix(
                    (#[trigger] rest[k]).octets,
                    rest[k].len as int,
                    items.last().octets,
                    items.last().len as int,
                );
            assert(rest[k] == items[k]);
            assert(items[n] == items.last());
        }
    }
    if art.lacks(items) {
        assert forall|k: int| 0 <= k < rest.len() implies art.lookup_exact(
            (#[trigger] rest[k]).octets,
            rest[k].len as int,
        ) is None by {
            assert(rest[k] == items[k]);
        }
    }
}

/// A sequence of additions keeps the tables a tree with every route where
/// it may stand, leaves no stale route, and keeps a full table full. The
/// routes that it adds to the arena are those of the prefixes, in their
/// order.
pub proof fn lemma_add_all_state(art: Art, items: Seq<Route>)
    requires
        art.wf(),
        art.inv(),
        art.admits(items),
        art.routes.len() + items.len() <= usize::MAX,
        art.add_all(items).tables.len() <= usize::MAX,
    ensures
        art.add_all(items).wf(),
        art.add_all(items).inv(),
        art.fresh() ==> art.add_all(items).fresh(),
        art.full() ==> art.add_all(items).full(),
        art.add_all(items).routes == art.routes + items,
    decreases items.len(),
{
    if items.len() > 0 {
        let rest = items.drop_last();
        let last = items.last();
        let before = art.add_all(rest);
        lemma_rest(art, items);
        lemma_add_all_len(art, rest);
        lemma_insert_len(
            before.with_route(last.octets, last.len),
            ArtEntry::Node(before.routes.len() as usize),
            last.octets,
            last.len as int,
        );
        lemma_add_all_state(art, rest);
        assert(items[items.len() - 1] == last);
        lemma_add(before, last.octets, last.len);
        let more = before.with_route(last.octets, last.len);
        let an = ArtEntry::Node(before.routes.len() as usize);
        lemma_with_route(before, last.octets, last.len);
        if art.fresh() {
            lemma_route_fresh(before, last.octets, last.len);
            lemma_insert_fresh(more, an, last.octets, last.len as int);
        }
        if art.full() {
            lemma_route_full(before, last.octets, last.len);
            lemma_insert_full(more, an, last.octets, last.len as int);
        }
        assert(art.add_all(items).routes =~= art.routes + items);
    } else {
        assert(art.routes =~= art.routes + items);
    }
}

/// What an exact lookup of one prefix finds after a sequence of additions
/// of distinct prefixes: the route that was added for it, if it is one of
/// them, and else what it found before.
pub proof fn lemma_add_all_exact(art: Art, items: Seq<Route>, qo: Seq<u8>, ql: int)
    requires
        art.wf(),
        art.inv(),
        art.admits(items),
        distinct(items),
        art.routes.len() + items.len() <= usize::MAX,
        art.add_all(items).tables.len() <= usize::MAX,
        0 <= ql,
    ensures
        !hits(items, qo, ql) ==> art.add_all(items).lookup_exact(qo, ql) == art.lookup_exact(qo, ql),
        forall|k: int|
            0 <= k < items.len() && same_prefix(
                (#[trigger] items[k]).octets,
                items[k].len as int,
                qo,
                ql,
            ) ==> art.add_all(items).lookup_exact(qo, ql) == Some((art.routes.len() + k) as usize),
    decreases items.len(),
{
    if items.len() > 0 {
        let rest = items.drop_last();
        let last = items.last();
        let before = art.add_all(rest);
        let n = items.len() - 1;
        lemma_rest(art, items);
        lemma_hits_last(items, qo, ql);
        lemma_add_all_len(art, rest);
        lemma_insert_len(
            before.with_route(last.octets, last.len),
            ArtEntry::Node(before.routes.len() as usize),
            last.octets,
            last.len as int,
        );
        lemma_add_all_state(art, rest);
        lemma_add_all_exact(art, rest, qo, ql);
        assert(items[n] == last);
        lemma_add(before, last.octets, last.len);
        assert forall|k: int|
            0 <= k < items.len() && same_prefix(
                (#[trigger] items[k]).octets,
                items[k].len as int,
                qo,
                ql,
            ) implies art.add_all(items).lookup_exact(qo, ql) == Some(
            (art.routes.len() + k) as usize,
        ) by {
            if k < n {
                assert(rest[k] == items[k]);
                assert(!same_prefix(
                    items[k].octets,
                    items[k].len as int,
                    items[n].octets,
                    items[n].len as int,
                ));
            }
        }
    }
}

/// How many routes a traversal yields after a sequence of additions of
/// distinct prefixes that the table lacked: as many more as there are
/// prefixes.
pub proof fn lemma_add_all_walk(art: Art, items: Seq<Route>)
    requires
        art.wf(),
        art.inv(),
        art.admits(items),
        distinct(items),
        art.lacks(items),
        art.routes.len() + items.len() <= usize::MAX,
        art.add_all(items).tables.len() <= usize::MAX,
    ensures
        art.add_all(items).walk_all().len() == art.walk_all().len() + items.len(),
    decreases items.len(),
{
    if items.len() > 0 {
        let rest = items.drop_last();
        let last = items.last();
        let before = art.add_all(rest);
        let n = items.len() - 1;
        lemma_rest(art, items);
        lemma_add_all_len(art, rest);
        lemma_insert_len(
            before.with_route(last.octets, last.len),
            ArtEntry::Node(before.routes.len() as usize),
            last.octets,
            last.len as int,
        );
        lemma_add_all_state(art, rest);
        lemma_add_all_walk(art, rest);
        lemma_add_all_exact(art, rest, last.octets, last.len as int);
        assert(items[n] == last);
        lemma_add(before, last.octets, last.len);
    }
}

/// **Insert, then look up.** After a route is added for each of a
/// sequence of distinct prefixes, an exact lookup of each prefix finds the
/// route that was added for it, and an exact lookup of a prefix that is
/// none of them finds what it found before. If the table held a route of
/// none of them, a traversal yields as many routes more as there are
/// prefixes.
pub proof fn lemma_add_all(art: Art, items: Seq<Route>)
    requires
        art.wf(),
        art.inv(),
        art.admits(items),
        distinct(items),
        art.routes.len() + items.len() <= usize::MAX,
        art.add_all(items).tables.len() <= usize::MAX,
    ensures
        art.add_all(items).wf(),
        art.add_all(items).inv(),
        art.add_all(items).routes == art.routes + items,
        forall|k: int|
            0 <= k < items.len() ==> art.add_all(items).lookup_exact(
                (#[trigger] items[k]).octets,
                items[k].len as int,
            ) == Some((art.routes.len() + k) as usize),
        forall|qo: Seq<u8>, ql: int|
            0 <= ql && !hits(items, qo, ql) ==> #[trigger] art.add_all(items).lookup_exact(qo, ql)
                == art.lookup_exact(qo, ql),
        art.lacks(items) ==> art.add_all(items).walk_all().len() == art.walk_all().len()
            + items.len(),
{
    lemma_add_all_state(art, items);
    assert forall|k: int| 0 <= k < items.len() implies art.add_all(items).lookup_exact(
        (#[trigger] items[k]).octets,
        items[k].len as int,
    ) == Some((art.routes.len() + k) as usize) by {
        lemma_add_all_exact(art, items, items[k].octets, items[k].len as int);
        assert(same_prefix(items[k].octets, items[k].len as int, items[k].octets, items[k].len as int));
    }
    assert forall|qo: Seq<u8>, ql: int| 0 <= ql && !hits(items, qo, ql) implies #[trigger] art.add_all(
        items,
    ).lookup_exact(qo, ql) == art.lookup_exact(qo, ql) by {
        lemma_add_all_exact(art, items, qo, ql);
    }
    if art.lacks(items) {
        lemma_add_all_walk(art, items);
    }
}

/// A sequence of deletions keeps the tables a tree with every route where
/// it may stand, and leaves no stale route.
pub proof fn lemma_delete_all_state(art: Art, items: Seq<Route>)
    requires
        art.wf(),
        art.inv(),
    ensures
        art.delete_all(items).wf(),
        art.delete_all(items).inv(),
        art.fresh() ==> art.delete_all(items).fresh(),
        art.delete_all(items).routes == art.routes,
    decreases items.len(),
{
    if items.len() > 0 {
        let last = items.last();
        let before = art.delete_all(items.drop_last());
        lemma_delete_all_state(art, items.drop_last());
        lemma_delete_exact(before, last.octets, last.len as int);
        if art.fresh() {
            lemma_delete_fresh(before, last.octets, last.len as int);
        }
    }
}

/// What an exact lookup of one prefix finds after a sequence of
/// deletions: nothing, if it is one of the deleted prefixes, and else what
/// it found before.
pub proof fn lemma_delete_all_exact(art: Art, items: Seq<Route>, qo: Seq<u8>, ql: int)
    requires
        art.wf(),
        art.inv(),
        0 <= ql,
    ensures
        art.delete_all(items).lookup_exact(qo, ql) == if hits(items, qo, ql) {
            None
        } else {
            art.lookup_exact(qo, ql)
        },
    decreases items.len(),
{
    if items.len() > 0 {
        let last = items.last();
        let before = art.delete_all(items.drop_last());
        lemma_hits_last(items, qo, ql);
        lemma_delete_all_state(art, items.drop_last());
        lemma_delete_all_exact(art, items.drop_last(), qo, ql);
        lemma_delete_exact(before, last.octets, last.len as int);
    }
}

/// **Delete all.** After each of a sequence of prefixes is deleted, an
/// exact lookup of each of them finds nothing, and an exact lookup of a
/// prefix that is none of them finds what it found before.
pub proof fn lemma_delete_all(art: Art, items: Seq<Route>)
    requires
        art.wf(),
        art.inv(),
    ensures
        art.delete_all(items).wf(),
        art.delete_all(items).inv(),
        art.delete_all(items).routes == art.routes,
        forall|qo: Seq<u8>, ql: int|
            0 <= ql ==> #[trigger] art.delete_all(items).lookup_exact(qo, ql) == if hits(
                items,
                qo,
                ql,
            ) {
                None
            } else {
                art.lookup_exact(qo, ql)
            },
{
    lemma_delete_all_state(art, items);
    assert forall|qo: Seq<u8>, ql: int| 0 <= ql implies #[trigger] art.delete_all(
        items,
    ).lookup_exact(qo, ql) == if hits(items, qo, ql) {
        None
    } else {
        art.lookup_exact(qo, ql)
    } by {
        lemma_delete_all_exact(art, items, qo, ql);
    }
}

/// Whether the prefix `r` covers the address `qo` and is at most `ql` bits
/// long.
pub open spec fn covering(r: Route, qo: Seq<u8>, ql: int) -> bool {
    r.len <= ql && same_bits(r.octets, qo, 0, r.len as int)
}

/// After a route is added to an empty table for each of a sequence of
/// distinct prefixes, the stored routes are the routes that were added.
pub proof fn lemma_add_all_stored(art: Art, items: Seq<Route>, n: usize)
    requires
        art.wf(),
        art.bare(),
        art.admits(items),
        distinct(items),
        art.routes.len() + items.len() <= usize::MAX,
        art.add_all(items).tables.len() <= usize::MAX,
    ensures
        art.add_all(items).stored(n) <==> art.routes.len() <= n < art.routes.len() + items.len(),
{
    let all = art.add_all(items);
    let base = art.routes.len();
    lemma_add_all_state(art, items);
    if n < all.routes.len() {
        let r = all.routes[n as int];
        lemma_add_all_exact(art, items, r.octets, r.len as int);
        if all.stored(n) {
            if hits(items, r.octets, r.len as int) {
                let k = choose|k: int|
                    0 <= k < items.len() && same_prefix(
                        (#[trigger] items[k]).octets,
                        items[k].len as int,
                        r.octets,
                        r.len as int,
                    );
                assert(all.lookup_exact(r.octets, r.len as int) == Some((base + k) as usize));
            } else {
                lemma_bare(art);
                assert(art.lookup_exact(r.octets, r.len as int) is None);
            }
        }
        if base <= n {
            let k = n - base;
            assert(r == items[k]);
            assert(same_prefix(items[k].octets, items[k].len as int, r.octets, r.len as int));
        }
    }
}

/// **Longest-prefix match after insertions.** After a route is added to
/// an empty table for each of a sequence of distinct prefixes, a lookup
/// finds the route of the longest of them that covers the address of the
/// query and is no longer than the query, and nothing if none of them
/// does.
pub proof fn lemma_add_all_lookup(art: Art, items: Seq<Route>, qo: Seq<u8>, ql: int)
    requires
        art.wf(),
        art.bare(),
        art.admits(items),
        distinct(items),
        art.routes.len() + items.len() <= usize::MAX,
        art.add_all(items).tables.len() <= usize::MAX,
        0 <= ql,
    ensures
        match art.add_all(items).lookup(qo, ql) {
            Some(n) => {
                &&& art.routes.len() <= n < art.routes.len() + items.len()
                &&& covering(items[n - art.routes.len()], qo, ql)
                &&& forall|j: int|
                    0 <= j < items.len() && covering(#[trigger] items[j], qo, ql) ==> items[j].len
                        <= items[n - art.routes.len()].len
            },
            None => forall|j: int| 0 <= j < items.len() ==> !covering(#[trigger] items[j], qo, ql),
        },
{
    let all = art.add_all(items);
    let base = art.routes.len();
    lemma_bare(art);
    lemma_bare_full(art);
    lemma_add_all_state(art, items);
    lemma_lookup_longest(all, qo, ql);
    assert forall|j: int| 0 <= j < items.len() && covering(#[trigger] items[j], qo, ql) implies all.matches(
        (base + j) as usize,
        qo,
        -1,
        ql,
    ) by {
        lemma_add_all_stored(art, items, (base + j) as usize);
        assert(all.routes[base + j] == items[j]);
    }
    match all.lookup(qo, ql) {
        Some(n) => {
            lemma_add_all_stored(art, items, n);
            assert(all.routes[base + (n - base)] == items[n - base]);
            assert forall|j: int|
                0 <= j < items.len() && covering(#[trigger] items[j], qo, ql) implies items[j].len
                <= items[n - base].len by {
                assert(all.matches((base + j) as usize, qo, -1, ql));
            }
        },
        None => {
            assert forall|j: int| 0 <= j < items.len() implies !covering(
                #[trigger] items[j],
                qo,
                ql,
            ) by {
                if covering(items[j], qo, ql) {
                    assert(all.matches((base + j) as usize, qo, -1, ql));
                }
            }
        },
    }
}

/// A table in which no exact lookup finds a route yields no route.
pub proof fn lemma_nothing_stored(art: Art)
    requires
        art.wf(),
        art.inv(),
        forall|n: usize| !#[trigger] art.stored(n),
    ensures
        art.walk_all().len() == 0,
{
    lemma_walk_stored(art);
    if art.walk_all().len() > 0 {
        assert(art.walk_all().contains(art.walk_all()[0]));
    }
}

/// **Insert, then delete.** After a route is added to an empty table for
/// each of a sequence of distinct prefixes, a traversal yields as many
/// routes as there are prefixes; after each of the prefixes is then
/// deleted, it yields nothing.
pub proof fn lemma_round_trip(art: Art, items: Seq<Route>)
    requires
        art.wf(),
        art.bare(),
        art.admits(items),
        distinct(items),
        art.routes.len() + items.len() <= usize::MAX,
        art.add_all(items).tables.len() <= usize::MAX,
    ensures
        art.add_all(items).walk_all().len() == items.len(),
        art.add_all(items).delete_all(items).walk_all().len() == 0,
{
    lemma_bare(art);
    let added = art.add_all(items);
    let after = added.delete_all(items);
    lemma_add_all(art, items);
    lemma_delete_all(added, items);
    assert forall|n: usize| !#[trigger] after.stored(n) by {
        if n < after.routes.len() {
            let r = after.routes[n as int];
            lemma_add_all_exact(art, items, r.octets, r.len as int);
        }
    }
    lemma_nothing_stored(after);
}

} // verus!
