//! Longest-prefix match: in a full table a lookup finds the longest stored
//! route that covers the query.

use vstd::prelude::*;
use crate::descent::{lemma_child, lemma_root, lemma_table, route_of};
use crate::heap::{
    heap_index, lemma_heap_index_row, lemma_heap_index_same, lemma_heap_index_up, lemma_pow2_grows,
    lemma_subtree_row,
};
use crate::home::{lemma_holder_len, lemma_home};
use crate::model::Art;
use crate::placement::{lemma_reaches_find, lemma_reaches_same};
use crate::prefix::same_bits;
use crate::table::ArtEntry;

verus! {

impl Art {
    /// Whether route `m` is a stored route that covers the address `qo`
    /// and is longer than `lo` bits and at most `hi` bits long.
    pub open spec fn matches(self, m: usize, qo: Seq<u8>, lo: int, hi: int) -> bool {
        &&& self.stored(m)
        &&& lo < self.routes[m as int].len <= hi
        &&& same_bits(self.routes[m as int].octets, qo, 0, self.routes[m as int].len as int)
    }

    /// Whether `found` is the longest stored route that covers the address
    /// `qo` among those that are longer than `lo` bits and at most `hi`
    /// bits long: one of them that is at least as long as each of them,
    /// or nothing where there is none.
    pub open spec fn longest(self, qo: Seq<u8>, lo: int, hi: int, found: Option<usize>) -> bool {
        &&& found matches Some(n) ==> self.matches(n, qo, lo, hi)
        &&& forall|m: usize| #[trigger]
            self.matches(m, qo, lo, hi) ==> found is Some && self.routes[m as int].len
                <= self.routes[found->Some_0 as int].len
    }
}

/// The longest route of two ranges of lengths that follow each other is
/// that of the upper range, or that of the lower range where the upper has
/// none.
pub proof fn lemma_longest_join(
    art: Art,
    qo: Seq<u8>,
    lo: int,
    mid: int,
    hi: int,
    lower: Option<usize>,
    upper: Option<usize>,
)
    requires
        lo <= mid <= hi,
        art.longest(qo, lo, mid, lower),
        art.longest(qo, mid, hi, upper),
    ensures
        art.longest(
            qo,
            lo,
            hi,
            if upper is Some {
                upper
            } else {
                lower
            },
        ),
{
    let found = if upper is Some {
        upper
    } else {
        lower
    };
    assert forall|m: usize| #[trigger] art.matches(m, qo, lo, hi) implies found is Some
        && art.routes[m as int].len <= art.routes[found->Some_0 as int].len by {
        if art.routes[m as int].len <= mid {
            assert(art.matches(m, qo, lo, mid));
        } else {
            assert(art.matches(m, qo, mid, hi));
        }
        if upper is Some {
            assert(art.matches(upper->Some_0, qo, mid, hi));
        }
    }
}

/// A route that stands for the prefix of a slot and has that prefix's
/// length is stored, and covers every address that leads to the slot.
pub proof fn lemma_owner(art: Art, qo: Seq<u8>, t: int, d: nat)
    requires
        art.wf(),
        art.inv(),
        0 <= t < art.tables.len(),
        art.reaches(qo, t),
        1 <= d <= art.tables[t].bits,
        art.owned(t, heap_index(qo, art.tables[t].offset as int, d) as int),
    ensures
        ({
            let n = art.holder(t, heap_index(qo, art.tables[t].offset as int, d) as int)->Node_0;
            art.matches(n, qo, art.tables[t].offset as int, (art.tables[t].offset + d) as int)
        }),
{
    let v = art.tables[t];
    let off = v.offset as int;
    let i = heap_index(qo, off, d) as int;
    let n = art.holder(t, i)->Node_0;
    let r = art.routes[n as int];
    lemma_table(art, t);
    lemma_heap_index_up(qo, off, d);
    lemma_heap_index_row(qo, off, d);
    lemma_pow2_grows(d, v.bits);
    lemma_holder_len(art, t, i);
    assert(art.covers(t, i, n as int));
    let h = heap_index(r.octets, off, (r.len - off) as nat) as int;
    lemma_heap_index_up(r.octets, off, (r.len - off) as nat);
    lemma_subtree_row(h, i);
    assert(h == i);
    lemma_heap_index_same(r.octets, qo, off, (r.len - off) as nat, d);
    lemma_reaches_same(art, r.octets, qo, t);
    assert(same_bits(r.octets, qo, 0, r.len as int));
    lemma_reaches_find(art, r.octets, r.len as int, t);
    assert(art.home(r.octets, r.len as int) == Some((t, i)));
    lemma_home(art, r.octets, r.len as int);
}

/// A stored route that covers an address stands for the prefix of the slot
/// in which its own prefix ends on the way of that address.
pub proof fn lemma_matches_holder(art: Art, m: usize, qo: Seq<u8>, t: int, d: nat)
    requires
        art.wf(),
        0 <= t < art.tables.len(),
        art.reaches(qo, t),
        1 <= d <= art.tables[t].bits,
        art.stored(m),
        art.routes[m as int].len == art.tables[t].offset + d,
        same_bits(art.routes[m as int].octets, qo, 0, art.routes[m as int].len as int),
    ensures
        art.holder(t, heap_index(qo, art.tables[t].offset as int, d) as int) == ArtEntry::Node(m),
{
    let v = art.tables[t];
    let off = v.offset as int;
    let r = art.routes[m as int];
    lemma_table(art, t);
    lemma_reaches_same(art, qo, r.octets, t);
    assert(same_bits(qo, r.octets, 0, off));
    lemma_reaches_find(art, r.octets, r.len as int, t);
    lemma_heap_index_same(r.octets, qo, off, d, d);
    assert(same_bits(r.octets, qo, off, off + d));
    lemma_home(art, r.octets, r.len as int);
}

/// In a full table, a route that stands for the prefix of a slot on the
/// way of an address is a stored route that covers the address and ends in
/// the table at that slot or above it.
pub proof fn lemma_local_found(art: Art, qo: Seq<u8>, t: int, d: nat)
    requires
        art.wf(),
        art.inv(),
        art.full(),
        0 <= t < art.tables.len(),
        art.reaches(qo, t),
        1 <= d <= art.tables[t].bits,
    ensures
        art.holder(t, heap_index(qo, art.tables[t].offset as int, d) as int) matches ArtEntry::Node(n)
            ==> art.matches(n, qo, art.tables[t].offset as int, (art.tables[t].offset + d) as int),
    decreases d,
{
    let v = art.tables[t];
    let off = v.offset as int;
    let i = heap_index(qo, off, d) as int;
    lemma_table(art, t);
    lemma_heap_index_up(qo, off, d);
    lemma_heap_index_row(qo, off, d);
    lemma_pow2_grows(d, v.bits);
    lemma_child(art, t, i / 2);
    assert(art.full_at(t, i));
    if art.owned(t, i) {
        lemma_owner(art, qo, t, d);
    } else if art.holder(t, i) is Node {
        assert(art.holder(t, i) == art.restored(t, i));
        assert(i >= 4);
        assert(d >= 2);
        lemma_local_found(art, qo, t, (d - 1) as nat);
        lemma_heap_index_up(qo, off, (d - 1) as nat);
        assert(art.holder(t, i / 2) == art.tables[t].entry[i / 2]);
    }
}

/// In a full table, what stands for the prefix of a slot on the way of an
/// address is a route that is at least as long as any stored route that
/// covers the address and ends in the table at that slot or above it.
pub proof fn lemma_local_longest(art: Art, qo: Seq<u8>, t: int, d: nat, m: usize)
    requires
        art.wf(),
        art.inv(),
        art.full(),
        0 <= t < art.tables.len(),
        art.reaches(qo, t),
        1 <= d <= art.tables[t].bits,
        art.matches(m, qo, art.tables[t].offset as int, (art.tables[t].offset + d) as int),
    ensures
        art.holder(t, heap_index(qo, art.tables[t].offset as int, d) as int) is Node,
        art.routes[m as int].len <= art.routes[art.holder(
            t,
            heap_index(qo, art.tables[t].offset as int, d) as int,
        )->Node_0 as int].len,
    decreases d,
{
    let v = art.tables[t];
    let off = v.offset as int;
    let i = heap_index(qo, off, d) as int;
    lemma_table(art, t);
    lemma_heap_index_up(qo, off, d);
    lemma_heap_index_row(qo, off, d);
    lemma_pow2_grows(d, v.bits);
    lemma_child(art, t, i / 2);
    assert(art.full_at(t, i));
    if art.routes[m as int].len == off + d {
        lemma_matches_holder(art, m, qo, t, d);
    } else {
        assert(d >= 2);
        assert(art.matches(m, qo, off, off + d - 1));
        lemma_local_longest(art, qo, t, (d - 1) as nat, m);
        lemma_heap_index_up(qo, off, (d - 1) as nat);
        assert(art.holder(t, i / 2) == art.tables[t].entry[i / 2]);
        assert(i >= 4);
        if art.owned(t, i) {
            lemma_owner(art, qo, t, d);
        }
    }
}

/// In a full table, what stands for the prefix of a slot on the way of an
/// address is the longest stored route that covers the address among those
/// that end in the table at that slot or above it.
pub proof fn lemma_local(art: Art, qo: Seq<u8>, t: int, d: nat)
    requires
        art.wf(),
        art.inv(),
        art.full(),
        0 <= t < art.tables.len(),
        art.reaches(qo, t),
        1 <= d <= art.tables[t].bits,
    ensures
        art.longest(
            qo,
            art.tables[t].offset as int,
            (art.tables[t].offset + d) as int,
            route_of(art.holder(t, heap_index(qo, art.tables[t].offset as int, d) as int)),
        ),
{
    let off = art.tables[t].offset as int;
    let val = art.holder(t, heap_index(qo, off, d) as int);
    lemma_local_found(art, qo, t, d);
    assert forall|m: usize| #[trigger] art.matches(m, qo, off, off + d) implies route_of(val) is Some
        && art.routes[m as int].len <= art.routes[route_of(val)->Some_0 as int].len by {
        lemma_local_longest(art, qo, t, d, m);
    }
}

/// Below a fringe slot that holds no table no stored route ends.
pub proof fn lemma_none_beyond(art: Art, qo: Seq<u8>, t: int, hi: int)
    requires
        art.wf(),
        0 <= t < art.tables.len(),
        art.reaches(qo, t),
        !(art.tables[t].entry[art.tables[t].fringe_slot(qo) as int] is Table),
    ensures
        art.longest(qo, (art.tables[t].offset + art.tables[t].bits) as int, hi, None),
{
    let v = art.tables[t];
    let off = v.offset as int;
    lemma_table(art, t);
    assert forall|m: usize| #[trigger]
        art.matches(m, qo, off + v.bits, hi) implies false by {
        let r = art.routes[m as int];
        lemma_reaches_same(art, qo, r.octets, t);
        assert(same_bits(qo, r.octets, 0, off));
        lemma_reaches_find(art, r.octets, r.len as int, t);
        lemma_heap_index_same(r.octets, qo, off, v.bits, v.bits);
        assert(same_bits(r.octets, qo, off, off + v.bits));
    }
}

/// The default of the root is the stored route of length 0, if there is
/// one.
pub proof fn lemma_root_default(art: Art, qo: Seq<u8>)
    requires
        art.wf(),
        art.inv(),
    ensures
        art.longest(qo, -1, 0, route_of(art.tables[0].default())),
{
    lemma_root(art);
    lemma_table(art, 0);
    let e = art.tables[0].default();
    assert(art.placed(0, 1));
    if e is Node {
        let n = e->Node_0;
        let r = art.routes[n as int];
        assert(art.home(r.octets, 0) == Some((0int, 1int)));
        lemma_home(art, r.octets, 0);
    }
    assert forall|m: usize| #[trigger] art.matches(m, qo, -1, 0) implies route_of(e) is Some
        && art.routes[m as int].len <= art.routes[route_of(e)->Some_0 as int].len by {
        let r = art.routes[m as int];
        assert(art.home(r.octets, 0) == Some((0int, 1int)));
        lemma_home(art, r.octets, 0);
    }
}

/// In a full table the descent from a table on the way of an address,
/// with the longest stored route from above the table, finds the longest
/// stored route that covers the address and is no longer than the query.
pub proof fn lemma_lpm(art: Art, at: int, best: ArtEntry, qo: Seq<u8>, ql: int)
    requires
        art.wf(),
        art.inv(),
        art.full(),
        0 <= at < art.tables.len(),
        art.reaches(qo, at),
        ql > art.tables[at].offset || (at == 0 && ql == 0 && best == art.tables[0].default()),
        art.longest(qo, -1, art.tables[at].offset as int, route_of(best)),
    ensures
        art.longest(qo, -1, ql, art.lpm(at, best, qo, ql)),
    decreases art.tables.len() - at,
{
    let v = art.tables[at];
    let off = v.offset as int;
    lemma_table(art, at);
    lemma_root(art);
    if ql > off + v.bits {
        let j = v.fringe_slot(qo) as int;
        lemma_heap_index_row(qo, off, v.bits);
        lemma_child(art, at, j);
        lemma_local(art, qo, at, v.bits);
        lemma_longest_join(art, qo, -1, off, off + v.bits, route_of(best), route_of(art.holder(at, j)));
        match v.entry[j] {
            ArtEntry::Table(c) => {
                let below = art.tables[c as int].default();
                lemma_table(art, c as int);
                lemma_lpm(
                    art,
                    c as int,
                    if below is Node {
                        below
                    } else {
                        best
                    },
                    qo,
                    ql,
                );
            },
            _ => {
                lemma_none_beyond(art, qo, at, ql);
                lemma_longest_join(
                    art,
                    qo,
                    -1,
                    off + v.bits,
                    ql,
                    if route_of(art.holder(at, j)) is Some {
                        route_of(art.holder(at, j))
                    } else {
                        route_of(best)
                    },
                    None,
                );
            },
        }
    } else if ql != off {
        let d = (ql - off) as nat;
        let i = heap_index(qo, off, d) as int;
        lemma_heap_index_row(qo, off, d);
        lemma_pow2_grows(d, v.bits);
        lemma_child(art, at, i);
        lemma_local(art, qo, at, d);
        lemma_longest_join(art, qo, -1, off, ql, route_of(best), route_of(art.holder(at, i)));
    }
}

/// **Longest-prefix match.** In a full table a lookup finds a stored route
/// that covers the address of the query and is no longer than the query,
/// and no stored route that does so is longer; it finds nothing only if
/// there is no such route.
pub proof fn lemma_lookup_longest(art: Art, qo: Seq<u8>, ql: int)
    requires
        art.wf(),
        art.inv(),
        art.full(),
        0 <= ql,
    ensures
        art.longest(qo, -1, ql, art.lookup(qo, ql)),
{
    lemma_root(art);
    lemma_root_default(art, qo);
    lemma_lpm(art, 0, art.tables[0].default(), qo, ql);
}

} // verus!
