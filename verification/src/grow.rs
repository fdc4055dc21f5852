//! What the growth of a path does: the new tables change neither where a
//! route may stand nor what an exact lookup finds.

use vstd::prelude::*;
use crate::descent::{lemma_child, lemma_graft_wf, lemma_level_below, lemma_root, lemma_table};
use crate::heap::{lemma_fringe_bounds, lemma_heap_index_row};
use crate::home::lemma_home;
use crate::model::Art;
use crate::placement::{lemma_find_reaches, lemma_reaches_find};
use crate::table::ArtEntry;

verus! {

/// What a new table in slot `j` of table `at` changes: the slot, and the
/// arena's end.
pub proof fn lemma_graft_slot(art: Art, at: int, j: int, t: int, i: int)
    requires
        art.wf(),
        0 <= at < art.tables.len(),
        art.tables[at].fringe() <= j < art.tables[at].entry.len(),
        art.tables[at].level + 1 < art.strides.len(),
        0 <= t <= art.tables.len(),
    ensures
        ({
            let new = art.graft(at, j);
            let c = art.tables.len() as int;
            &&& new.tables.len() == c + 1
            &&& new.routes == art.routes
            &&& new.strides == art.strides
            &&& t < c ==> {
                &&& new.tables[t].level == art.tables[t].level
                &&& new.tables[t].bits == art.tables[t].bits
                &&& new.tables[t].offset == art.tables[t].offset
                &&& new.tables[t].index == art.tables[t].index
                &&& new.tables[t].parent == art.tables[t].parent
                &&& new.tables[t].entry.len() == art.tables[t].entry.len()
                &&& 0 <= i < art.tables[t].entry.len() ==> new.tables[t].entry[i] == if t == at && i
                    == j {
                    ArtEntry::Table(c as usize)
                } else {
                    art.tables[t].entry[i]
                }
            }
            &&& new.tables[c].level == art.tables[at].level + 1
            &&& new.tables[c].bits == art.strides[art.tables[at].level as int + 1]
            &&& new.tables[c].offset == art.tables[at].offset + art.tables[at].bits
            &&& new.tables[c].index == j
            &&& new.tables[c].parent == Some(at)
            &&& new.tables[c].entry.len() == 2 * new.tables[c].fringe()
            &&& new.tables[c].fringe() >= 2
            &&& 0 <= i < new.tables[c].entry.len() ==> new.tables[c].entry[i] == if i == 1 {
                art.tables[at].entry[j]
            } else {
                ArtEntry::Empty
            }
        }),
{
    lemma_table(art, at);
    let l = art.tables[at].level + 1;
    lemma_fringe_bounds(art.strides[l as int]);
}

/// A new table changes no path to an old table, and is reached through the
/// slot in which it hangs.
pub proof fn lemma_graft_reaches(art: Art, at: int, j: int, o: Seq<u8>, t: int)
    requires
        art.wf(),
        0 <= at < art.tables.len(),
        art.tables[at].fringe() <= j < art.tables[at].entry.len(),
        art.tables[at].level + 1 < art.strides.len(),
        0 <= t <= art.tables.len(),
    ensures
        t < art.tables.len() ==> art.graft(at, j).reaches(o, t) == art.reaches(o, t),
        t == art.tables.len() ==> art.graft(at, j).reaches(o, t) == (art.reaches(o, at)
            && art.tables[at].fringe_slot(o) == j),
    decreases t,
{
    let new = art.graft(at, j);
    lemma_graft_slot(art, at, j, t, 0);
    if t < art.tables.len() {
        assert(art.table_ok(t));
        match art.tables[t].parent {
            Some(p) => {
                lemma_graft_slot(art, at, j, p, 0);
                lemma_graft_reaches(art, at, j, o, p);
            },
            None => {},
        }
    } else {
        lemma_graft_slot(art, at, j, at, 0);
        lemma_graft_reaches(art, at, j, o, at);
    }
}

/// A new table changes no descent that ended in a table; one that ran out
/// of tables may now end in the new table.
pub proof fn lemma_graft_find(art: Art, at: int, j: int, s: int, o: Seq<u8>, plen: int)
    requires
        art.wf(),
        art.tables.len() < usize::MAX,
        0 <= at < art.tables.len(),
        art.tables[at].fringe() <= j < art.tables[at].entry.len(),
        !(art.tables[at].entry[j] is Table),
        art.tables[at].level + 1 < art.strides.len(),
        0 <= s < art.tables.len(),
    ensures
        art.find(s, o, plen) is Some ==> art.graft(at, j).find(s, o, plen) == art.find(s, o, plen),
        art.find(s, o, plen) is None ==> art.graft(at, j).find(s, o, plen) is None || (art.graft(
            at,
            j,
        ).find(s, o, plen) == Some(art.tables.len() as int) && plen > art.tables[at].offset
            + art.tables[at].bits),
    decreases art.tables.len() - s,
{
    let new = art.graft(at, j);
    let c = art.tables.len() as int;
    let t = art.tables[s];
    lemma_table(art, s);
    lemma_graft_slot(art, at, j, s, 0);
    if plen > t.offset + t.bits {
        let f = t.fringe_slot(o) as int;
        lemma_heap_index_row(o, t.offset as int, t.bits);
        lemma_child(art, s, f);
        lemma_graft_slot(art, at, j, s, f);
        if s == at && f == j {
            lemma_graft_slot(art, at, j, c, 0);
            let v = new.tables[c];
            if plen > v.offset + v.bits {
                let g = v.fringe_slot(o) as int;
                lemma_heap_index_row(o, v.offset as int, v.bits);
                lemma_graft_slot(art, at, j, c, g);
                assert(new.find(c, o, plen) is None);
            } else {
                assert(new.find(c, o, plen) == Some(c));
            }
        } else if t.entry[f] is Table {
            lemma_graft_find(art, at, j, t.entry[f]->Table_0 as int, o, plen);
        }
    }
}

/// A new table changes nothing for a prefix whose path had all its tables:
/// the prefix ends where it ended, and the same entry stands for it.
proof fn lemma_graft_kept(art: Art, at: int, j: int, o: Seq<u8>, plen: int)
    requires
        art.wf(),
        art.tables.len() < usize::MAX,
        0 <= at < art.tables.len(),
        art.tables[at].fringe() <= j < art.tables[at].entry.len(),
        !(art.tables[at].entry[j] is Table),
        art.tables[at].level + 1 < art.strides.len(),
        art.find(0, o, plen) is Some,
    ensures
        art.graft(at, j).home(o, plen) == art.home(o, plen),
        art.home(o, plen) matches Some((t, i)) ==> art.graft(at, j).holder(t, i) == art.holder(t, i),
{
    let new = art.graft(at, j);
    let c = art.tables.len() as int;
    let t = art.find(0, o, plen)->Some_0;
    lemma_graft_find(art, at, j, 0, o, plen);
    lemma_root(art);
    lemma_find_reaches(art, 0, o, plen);
    lemma_graft_slot(art, at, j, t, 0);
    assert(new.tables[t].slot(o, plen) == art.tables[t].slot(o, plen));
    if art.home(o, plen) is Some {
        let i = art.home(o, plen)->Some_0.1;
        lemma_home(art, o, plen);
        lemma_graft_slot(art, at, j, t, i);
        lemma_child(art, t, i);
        match art.tables[t].entry[i] {
            ArtEntry::Table(d) => {
                lemma_table(art, d as int);
                lemma_table(art, at);
                lemma_graft_slot(art, at, j, d as int, 1);
                assert(new.tables[d as int].entry[1] == art.tables[d as int].entry[1]);
            },
            _ => {
                if t == at && i == j {
                    lemma_graft_slot(art, at, j, c, 1);
                    assert(new.tables[c].entry[1] == art.tables[at].entry[j]);
                }
            },
        }
    }
}

/// A prefix that comes to end in a new table finds nothing there.
proof fn lemma_graft_fresh(art: Art, at: int, j: int, o: Seq<u8>, plen: int)
    requires
        art.wf(),
        art.tables.len() < usize::MAX,
        0 <= at < art.tables.len(),
        art.tables[at].fringe() <= j < art.tables[at].entry.len(),
        !(art.tables[at].entry[j] is Table),
        art.tables[at].level + 1 < art.strides.len(),
        art.graft(at, j).find(0, o, plen) == Some(art.tables.len() as int),
        plen > art.tables[at].offset + art.tables[at].bits,
    ensures
        art.graft(at, j).lookup_exact(o, plen) is None,
{
    let new = art.graft(at, j);
    let c = art.tables.len() as int;
    lemma_graft_wf(art, at, j);
    lemma_graft_slot(art, at, j, c, 0);
    lemma_home(new, o, plen);
    if new.home(o, plen) is Some {
        let i = new.home(o, plen)->Some_0.1;
        lemma_graft_slot(art, at, j, c, i);
        assert(new.tables[c].entry[i] is Empty);
        assert(new.holder(c, i) is Empty);
    }
}

/// A new table changes no exact lookup.
pub proof fn lemma_graft_exact(art: Art, at: int, j: int, o: Seq<u8>, plen: int)
    requires
        art.wf(),
        art.tables.len() < usize::MAX,
        0 <= at < art.tables.len(),
        art.tables[at].fringe() <= j < art.tables[at].entry.len(),
        !(art.tables[at].entry[j] is Table),
        art.tables[at].level + 1 < art.strides.len(),
    ensures
        art.graft(at, j).lookup_exact(o, plen) == art.lookup_exact(o, plen),
{
    let new = art.graft(at, j);
    lemma_graft_find(art, at, j, 0, o, plen);
    lemma_graft_slot(art, at, j, 0, 0);
    if art.find(0, o, plen) is Some {
        lemma_graft_kept(art, at, j, o, plen);
        assert(new.routes == art.routes);
        if art.home(o, plen) is Some {
            let (t, i) = art.home(o, plen)->Some_0;
            assert(new.lookup_exact(o, plen) == new.route_of_len(new.holder(t, i), plen));
            assert(art.lookup_exact(o, plen) == art.route_of_len(art.holder(t, i), plen));
        }
    } else if new.find(0, o, plen) is Some {
        lemma_graft_fresh(art, at, j, o, plen);
    }
}

/// A new table keeps every route where it may stand.
pub proof fn lemma_graft_inv(art: Art, at: int, j: int)
    requires
        art.wf(),
        art.inv(),
        art.tables.len() < usize::MAX,
        0 <= at < art.tables.len(),
        art.tables[at].fringe() <= j < art.tables[at].entry.len(),
        !(art.tables[at].entry[j] is Table),
        art.tables[at].level + 1 < art.strides.len(),
    ensures
        art.graft(at, j).inv(),
{
    let new = art.graft(at, j);
    let c = art.tables.len() as int;
    lemma_table(art, at);
    assert forall|t: int, i: int|
        0 <= t < new.tables.len() && 0 <= i < new.tables[t].entry.len() implies #[trigger] new.placed(
        t,
        i,
    ) by {
        lemma_graft_slot(art, at, j, t, i);
        lemma_graft_slot(art, at, j, at, 0);
        match new.tables[t].entry[i] {
            ArtEntry::Node(n) => {
                let o = art.routes[n as int].octets;
                if t < c {
                    assert(art.placed(t, i));
                    assert(art.table_ok(t));
                    lemma_graft_reaches(art, at, j, o, t);
                    match art.tables[t].parent {
                        Some(p) => {
                            lemma_graft_slot(art, at, j, p, 0);
                            lemma_graft_reaches(art, at, j, o, p);
                        },
                        None => {},
                    }
                } else {
                    assert(i == 1);
                    assert(art.placed(at, j));
                    lemma_graft_reaches(art, at, j, o, at);
                }
            },
            _ => {},
        }
    }
}

/// The growth of a path takes no table away.
pub proof fn lemma_grow_len(art: Art, at: int, o: Seq<u8>, plen: int)
    ensures
        art.tables.len() <= art.grow(at, o, plen).0.tables.len(),
    decreases art.strides.len() - art.tables[at].level,
{
    let t = art.tables[at];
    if plen > t.offset + t.bits && t.level + 1 < art.strides.len() && 0 <= at < art.tables.len() {
        let j = t.fringe_slot(o) as int;
        match t.entry[j] {
            ArtEntry::Table(c) => {
                if art.tables[c as int].level == t.level + 1 {
                    lemma_grow_len(art, c as int, o, plen);
                }
            },
            _ => {
                lemma_grow_len(art.graft(at, j), art.tables.len() as int, o, plen);
            },
        }
    }
}

/// The growth of a path keeps the tables a tree with every route where it
/// may stand, changes no exact lookup, and ends in the table in which the
/// prefix ends.
pub proof fn lemma_grow(art: Art, at: int, o: Seq<u8>, plen: int)
    requires
        art.wf(),
        art.inv(),
        art.grow(at, o, plen).0.tables.len() <= usize::MAX,
        0 <= at < art.tables.len(),
        art.reaches(o, at),
        plen <= art.alen(),
        at == 0 || plen > art.tables[at].offset,
    ensures
        ({
            let (grown, end) = art.grow(at, o, plen);
            &&& grown.wf()
            &&& grown.inv()
            &&& grown.routes == art.routes
            &&& grown.strides == art.strides
            &&& art.tables.len() <= grown.tables.len()
            &&& 0 <= end < grown.tables.len()
            &&& grown.reaches(o, end)
            &&& grown.find(0, o, plen) == Some(end)
            &&& plen <= grown.tables[end].offset + grown.tables[end].bits
            &&& end == 0 || plen > grown.tables[end].offset
            &&& forall|qo: Seq<u8>, ql: int| #[trigger]
                grown.lookup_exact(qo, ql) == art.lookup_exact(qo, ql)
        }),
    decreases art.strides.len() - art.tables[at].level,
{
    let t = art.tables[at];
    lemma_table(art, at);
    if plen <= t.offset + t.bits {
        lemma_reaches_find(art, o, plen, at);
    } else {
        lemma_level_below(art, at, plen);
        let j = t.fringe_slot(o) as int;
        lemma_heap_index_row(o, t.offset as int, t.bits);
        lemma_child(art, at, j);
        match t.entry[j] {
            ArtEntry::Table(c) => {
                lemma_grow(art, c as int, o, plen);
            },
            _ => {
                let next = art.graft(at, j);
                let c = art.tables.len() as int;
                lemma_graft_slot(art, at, j, c, 0);
                lemma_grow_len(next, c, o, plen);
                lemma_graft_wf(art, at, j);
                lemma_graft_inv(art, at, j);
                lemma_graft_slot(art, at, j, c, 0);
                lemma_graft_reaches(art, at, j, o, c);
                lemma_grow(next, c, o, plen);
                let (grown, end) = next.grow(c, o, plen);
                assert forall|qo: Seq<u8>, ql: int| #[trigger]
                    grown.lookup_exact(qo, ql) == art.lookup_exact(qo, ql) by {
                    lemma_graft_exact(art, at, j, qo, ql);
                }
            },
        }
    }
}

} // verus!
