//! What a lookup finds in any table, full or not: a stored route that
//! covers the address of the query and is no longer than the query.

use vstd::prelude::*;
use crate::descent::{lemma_child, lemma_root, lemma_table, route_of};
use crate::emits::lemma_found_stored;
use crate::heap::{
    heap_index, lemma_heap_index_nest, lemma_heap_index_row, lemma_heap_index_same,
    lemma_heap_index_up, lemma_pow2_grows, lemma_subtree_one, lemma_subtree_row,
};
use crate::home::{lemma_holder_len, lemma_home};
use crate::model::Art;
use crate::placement::{lemma_exact_same, lemma_reaches_same};
use crate::prefix::same_bits;
use crate::table::ArtEntry;

verus! {

/// What stands for the prefix of a slot on the way of an address is a
/// stored route that covers the address.
pub proof fn lemma_holder_matches(art: Art, qo: Seq<u8>, t: int, d: nat)
    requires
        art.wf(),
        art.inv(),
        art.fresh(),
        0 <= t < art.tables.len(),
        art.reaches(qo, t),
        1 <= d <= art.tables[t].bits,
    ensures
        art.holder(t, heap_index(qo, art.tables[t].offset as int, d) as int) matches ArtEntry::Node(n)
            ==> art.matches(n, qo, art.tables[t].offset as int, (art.tables[t].offset + d) as int),
{
    let v = art.tables[t];
    let off = v.offset as int;
    let i = heap_index(qo, off, d) as int;
    lemma_table(art, t);
    lemma_heap_index_up(qo, off, d);
    lemma_heap_index_row(qo, off, d);
    lemma_pow2_grows(d, v.bits);
    lemma_child(art, t, i);
    if art.holder(t, i) is Node {
        let n = art.holder(t, i)->Node_0;
        let r = art.routes[n as int];
        lemma_holder_len(art, t, i);
        match v.entry[i] {
            ArtEntry::Table(c) => {
                lemma_table(art, c as int);
                assert(art.fresh_at(c as int, 1));
            },
            _ => {
                assert(art.fresh_at(t, i));
            },
        }
        let a = (r.len - off) as nat;
        let h = heap_index(r.octets, off, a) as int;
        lemma_heap_index_up(r.octets, off, a);
        lemma_subtree_row(h, i);
        lemma_heap_index_nest(qo, off, a, d);
        lemma_heap_index_up(qo, off, a);
        lemma_subtree_one(h, heap_index(qo, off, a) as int, i);
        lemma_heap_index_same(r.octets, qo, off, a, a);
        lemma_reaches_same(art, r.octets, qo, t);
        assert(same_bits(r.octets, qo, 0, r.len as int));
    }
}

/// The descent from a table on the way of an address finds a stored route
/// that covers the address and is no longer than the query, if the route
/// that it brings from above the table is one; and it finds a route if it
/// brings one.
pub proof fn lemma_lpm_sound(art: Art, at: int, best: ArtEntry, qo: Seq<u8>, ql: int)
    requires
        art.wf(),
        art.inv(),
        art.fresh(),
        0 <= at < art.tables.len(),
        art.reaches(qo, at),
        ql > art.tables[at].offset || (at == 0 && ql == 0 && best == art.tables[0].default()),
        route_of(best) matches Some(n) ==> art.matches(n, qo, -1, art.tables[at].offset as int),
    ensures
        art.lpm(at, best, qo, ql) matches Some(n) ==> art.matches(n, qo, -1, ql),
        best is Node ==> art.lpm(at, best, qo, ql) is Some,
    decreases art.tables.len() - at,
{
    let v = art.tables[at];
    let off = v.offset as int;
    lemma_table(art, at);
    lemma_root(art);
    if ql > off + v.bits {
        let j = v.fringe_slot(qo) as int;
        lemma_heap_index_row(qo, off, v.bits);
        lemma_child(art, at, j);
        lemma_holder_matches(art, qo, at, v.bits);
        match v.entry[j] {
            ArtEntry::Table(c) => {
                let below = art.tables[c as int].default();
                lemma_table(art, c as int);
                lemma_lpm_sound(
                    art,
                    c as int,
                    if below is Node {
                        below
                    } else {
                        best
                    },
                    qo,
                    ql,
                );
            },
            _ => {},
        }
    } else if ql != off {
        let d = (ql - off) as nat;
        let i = heap_index(qo, off, d) as int;
        lemma_heap_index_row(qo, off, d);
        lemma_pow2_grows(d, v.bits);
        lemma_child(art, at, i);
        lemma_holder_matches(art, qo, at, d);
    }
}

/// **A lookup finds only stored routes that cover the query.** In any
/// table in which the slots hold stored routes alone, the route that a
/// lookup finds is stored, covers the address of the query and is no
/// longer than the query; and a lookup finds a route whenever the table
/// holds a route of length 0.
pub proof fn lemma_lookup_sound(art: Art, qo: Seq<u8>, ql: int)
    requires
        art.wf(),
        art.inv(),
        art.fresh(),
        0 <= ql,
    ensures
        art.lookup(qo, ql) matches Some(n) ==> art.matches(n, qo, -1, ql),
        art.tables[0].default() is Node ==> art.lookup(qo, ql) is Some,
{
    lemma_root(art);
    lemma_table(art, 0);
    let e = art.tables[0].default();
    if e is Node {
        assert(art.placed(0, 1));
        assert(art.fresh_at(0, 1));
    }
    lemma_lpm_sound(art, 0, e, qo, ql);
}

/// **The default route.** In a table that holds a route of length 0, a
/// lookup finds that route whenever no longer stored route covers the
/// address of the query.
pub proof fn lemma_default_route(art: Art, o: Seq<u8>, qo: Seq<u8>, ql: int)
    requires
        art.wf(),
        art.inv(),
        art.fresh(),
        0 <= ql,
        art.lookup_exact(o, 0) is Some,
        forall|m: usize| !#[trigger] art.matches(m, qo, 0, ql),
    ensures
        art.lookup(qo, ql) == art.lookup_exact(o, 0),
{
    let d = art.lookup_exact(o, 0)->Some_0;
    lemma_found_stored(art, o, 0);
    lemma_home(art, o, 0);
    lemma_root(art);
    lemma_table(art, 0);
    assert(art.home(o, 0) == Some((0int, 1int)));
    lemma_lookup_sound(art, qo, ql);
    let n = art.lookup(qo, ql)->Some_0;
    assert(!art.matches(n, qo, 0, ql));
    lemma_exact_same(art, o, art.routes[n as int].octets, 0);
}

} // verus!
