//! Where the routes of a routing table stand: every route that a slot
//! holds ends in that slot or in a slot above it, in the table that its own
//! bits lead to.

use vstd::prelude::*;
use crate::descent::{lemma_child, lemma_root, lemma_table};
use crate::heap::{heap_index, in_subtree, lemma_heap_index_row, lemma_heap_index_same};
use crate::model::Art;
use crate::prefix::{bit_at, same_bits, same_prefix};
use crate::table::ArtEntry;

verus! {

impl Art {
    /// Whether the descent along `o` from the root comes to table `t`.
    pub open spec fn reaches(self, o: Seq<u8>, t: int) -> bool
        decreases t,
    {
        match self.tables[t].parent {
            Some(p) => 0 <= p < t && self.reaches(o, p) && self.tables[p].fringe_slot(o)
                == self.tables[t].index,
            None => true,
        }
    }

    /// Whether the prefix of route `n` ends in table `t`, in slot `i` or in
    /// a slot above it.
    pub open spec fn covers(self, t: int, i: int, n: int) -> bool {
        let r = self.routes[n];
        let v = self.tables[t];
        &&& v.offset < r.len <= v.offset + v.bits
        &&& self.reaches(r.octets, t)
        &&& in_subtree(heap_index(r.octets, v.offset as int, (r.len - v.offset) as nat) as int, i)
    }

    /// Whether a route in slot `i` of table `t` stands where it may: in a
    /// slot from 2 on, a route that covers the slot; in slot 1, a route
    /// that covers the slot in which the table hangs, and at the root the
    /// route of length 0.
    pub open spec fn placed(self, t: int, i: int) -> bool {
        match self.tables[t].entry[i] {
            ArtEntry::Node(n) => if i >= 2 {
                self.covers(t, i, n as int)
            } else if i == 1 {
                match self.tables[t].parent {
                    Some(p) => self.covers(p, self.tables[t].index as int, n as int),
                    None => self.routes[n as int].len == 0,
                }
            } else {
                true
            },
            _ => true,
        }
    }

    /// Every route stands where it may.
    pub open spec fn inv(self) -> bool {
        forall|t: int, i: int|
            0 <= t < self.tables.len() && 0 <= i < self.tables[t].entry.len()
                ==> #[trigger] self.placed(t, i)
    }

    /// Whether `e` names a route of the prefix `(o, plen)`.
    pub open spec fn names(self, e: ArtEntry, o: Seq<u8>, plen: int) -> bool {
        &&& e matches ArtEntry::Node(n)
        &&& n < self.routes.len()
        &&& self.routes[n as int].len == plen
        &&& self.routes[n as int].octets == o
    }
}

/// The descent along `o` to a table that `o` reaches, for a prefix that
/// does not end above the table, goes on from that table.
pub proof fn lemma_reaches_find(art: Art, o: Seq<u8>, plen: int, t: int)
    requires
        art.wf(),
        0 <= t < art.tables.len(),
        art.reaches(o, t),
        t == 0 || plen > art.tables[t].offset,
    ensures
        art.find(0, o, plen) == art.find(t, o, plen),
    decreases t,
{
    assert(art.table_ok(t));
    match art.tables[t].parent {
        Some(p) => {
            lemma_table(art, p);
            lemma_child(art, p, art.tables[t].index as int);
            lemma_reaches_find(art, o, plen, p);
        },
        None => {},
    }
}

/// The table in which the descent along `o` ends is one that `o` reaches,
/// and one in which the prefix ends.
pub proof fn lemma_find_reaches(art: Art, s: int, o: Seq<u8>, plen: int)
    requires
        art.wf(),
        0 <= s < art.tables.len(),
        art.reaches(o, s),
        art.find(s, o, plen) is Some,
    ensures
        ({
            let e = art.find(s, o, plen)->Some_0;
            &&& s <= e < art.tables.len()
            &&& art.reaches(o, e)
            &&& plen <= art.tables[e].offset + art.tables[e].bits
            &&& e != s ==> plen > art.tables[e].offset
        }),
    decreases art.tables.len() - s,
{
    let t = art.tables[s];
    if plen > t.offset + t.bits {
        lemma_table(art, s);
        let j = t.fringe_slot(o) as int;
        lemma_heap_index_row(o, t.offset as int, t.bits);
        lemma_child(art, s, j);
        let c = t.entry[j]->Table_0 as int;
        lemma_find_reaches(art, c, o, plen);
    }
}

/// Octet strings with the same bits above a table reach it together.
pub proof fn lemma_reaches_same(art: Art, o1: Seq<u8>, o2: Seq<u8>, t: int)
    requires
        art.wf(),
        0 <= t < art.tables.len(),
        art.reaches(o1, t),
    ensures
        art.reaches(o2, t) <==> same_bits(o1, o2, 0, art.tables[t].offset as int),
    decreases t,
{
    assert(art.table_ok(t));
    match art.tables[t].parent {
        Some(p) => {
            lemma_table(art, p);
            lemma_table(art, t);
            lemma_child(art, p, art.tables[t].index as int);
            lemma_reaches_same(art, o1, o2, p);
            let v = art.tables[p];
            lemma_heap_index_same(o1, o2, v.offset as int, v.bits, v.bits);
            if art.reaches(o2, t) {
                assert(same_bits(o1, o2, 0, art.tables[t].offset as int));
            }
            if same_bits(o1, o2, 0, art.tables[t].offset as int) {
                assert(same_bits(o1, o2, 0, v.offset as int));
                assert(same_bits(o1, o2, v.offset as int, (v.offset + v.bits) as int));
            }
        },
        None => {
            lemma_root(art);
        },
    }
}

/// The descent from a table that both reach is the same for two octet
/// strings with the same bits up to the prefix length.
pub proof fn lemma_find_same(art: Art, s: int, o1: Seq<u8>, o2: Seq<u8>, plen: int)
    requires
        art.wf(),
        0 <= s < art.tables.len(),
        same_bits(o1, o2, 0, plen),
    ensures
        art.find(s, o1, plen) == art.find(s, o2, plen),
    decreases art.tables.len() - s,
{
    let t = art.tables[s];
    if plen > t.offset + t.bits {
        lemma_table(art, s);
        lemma_heap_index_same(o1, o2, t.offset as int, t.bits, t.bits);
        assert(same_bits(o1, o2, t.offset as int, (t.offset + t.bits) as int));
        let j = t.fringe_slot(o1) as int;
        lemma_heap_index_row(o1, t.offset as int, t.bits);
        lemma_child(art, s, j);
        if t.entry[j] is Table {
            lemma_find_same(art, t.entry[j]->Table_0 as int, o1, o2, plen);
        }
    }
}

/// An exact lookup reads only the bits of the prefix: the same prefix
/// gives the same answer.
pub proof fn lemma_exact_same(art: Art, o1: Seq<u8>, o2: Seq<u8>, plen: int)
    requires
        art.wf(),
        same_bits(o1, o2, 0, plen),
    ensures
        art.find(0, o1, plen) == art.find(0, o2, plen),
        art.find(0, o1, plen) matches Some(at) ==> art.tables[at].slot(o1, plen)
            == art.tables[at].slot(o2, plen),
        art.lookup_exact(o1, plen) == art.lookup_exact(o2, plen),
{
    lemma_find_same(art, 0, o1, o2, plen);
    if art.find(0, o1, plen) is Some {
        lemma_root(art);
        lemma_find_reaches(art, 0, o1, plen);
        let at = art.find(0, o1, plen)->Some_0;
        let v = art.tables[at];
        if v.offset <= plen {
            lemma_heap_index_same(
                o1,
                o2,
                v.offset as int,
                (plen - v.offset) as nat,
                (plen - v.offset) as nat,
            );
            assert(same_bits(o1, o2, v.offset as int, v.offset + (plen - v.offset)));
        }
    }
}

/// Two prefixes that end in the same slot of the same table are the same
/// prefix.
pub proof fn lemma_same_slot(art: Art, o1: Seq<u8>, len1: int, o2: Seq<u8>, len2: int)
    requires
        art.wf(),
        0 <= len1,
        0 <= len2,
        art.find(0, o1, len1) is Some,
        art.find(0, o1, len1) == art.find(0, o2, len2),
        art.tables[art.find(0, o1, len1)->Some_0].slot(o1, len1) == art.tables[art.find(
            0,
            o1,
            len1,
        )->Some_0].slot(o2, len2),
    ensures
        same_prefix(o1, len1, o2, len2),
{
    lemma_root(art);
    lemma_find_reaches(art, 0, o1, len1);
    lemma_find_reaches(art, 0, o2, len2);
    let at = art.find(0, o1, len1)->Some_0;
    let v = art.tables[at];
    lemma_reaches_same(art, o1, o2, at);
    assert(v.offset <= len1 && v.offset <= len2);
    lemma_heap_index_same(
        o1,
        o2,
        v.offset as int,
        (len1 - v.offset) as nat,
        (len2 - v.offset) as nat,
    );
    assert(len1 == len2);
    assert(same_bits(o1, o2, v.offset as int, len1));
    assert forall|k: int| 0 <= k < len1 implies #[trigger] bit_at(o1, k) == bit_at(o2, k) by {
        if k < v.offset {
            assert(same_bits(o1, o2, 0, v.offset as int));
        }
    }
}

} // verus!
