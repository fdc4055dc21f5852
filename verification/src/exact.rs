//! The exact-match content of a routing table behaves as a map from
//! prefixes to routes: an insertion sets the route of one prefix, a
//! deletion removes it, and neither touches the route of another prefix.

use vstd::prelude::*;
use crate::descent::{lemma_child, lemma_root, lemma_table};
use crate::grow::lemma_grow;
use crate::heap::{lemma_heap_index_row, lemma_subtree_of_parent, lemma_subtree_row};
use crate::home::{
    lemma_allot_holder, lemma_allot_inv, lemma_covers_below, lemma_covers_len, lemma_holder_len,
    lemma_home, lemma_put_holder, lemma_put_inv, lemma_shape_covers,
};
use crate::model::Art;
use crate::placement::{lemma_exact_same, lemma_same_slot};
use crate::prefix::same_prefix;
use crate::shape::{lemma_shape_same, lemma_with_entry_shape};
use crate::table::ArtEntry;

verus! {

/// Two prefixes end in the same slot exactly when they are the same
/// prefix.
pub proof fn lemma_home_same(art: Art, o: Seq<u8>, plen: int, qo: Seq<u8>, ql: int)
    requires
        art.wf(),
        0 <= plen,
        0 <= ql,
        art.home(o, plen) is Some,
    ensures
        same_prefix(o, plen, qo, ql) ==> art.home(qo, ql) == art.home(o, plen),
        art.home(qo, ql) == art.home(o, plen) ==> same_prefix(o, plen, qo, ql),
{
    if same_prefix(o, plen, qo, ql) {
        lemma_exact_same(art, o, qo, plen);
    }
    if art.home(qo, ql) == art.home(o, plen) {
        lemma_same_slot(art, o, plen, qo, ql);
    }
}

/// Putting the route of a prefix in the slot where the prefix ends makes
/// it the route that an exact lookup of the prefix finds, and changes the
/// answer for no other prefix.
pub proof fn lemma_place(art: Art, at: int, i: int, an: ArtEntry, o: Seq<u8>, plen: int)
    requires
        art.wf(),
        art.inv(),
        plen >= 1,
        art.home(o, plen) == Some((at, i)),
        art.names(an, o, plen),
    ensures
        art.place(at, i, an).wf(),
        art.place(at, i, an).inv(),
        art.same_shape(art.place(at, i, an)),
        art.place(at, i, an).routes == art.routes,
        art.place(at, i, an).strides == art.strides,
        art.place(at, i, an).tables.len() == art.tables.len(),
        forall|qo: Seq<u8>, ql: int|
            0 <= ql ==> #[trigger] art.place(at, i, an).lookup_exact(qo, ql) == if same_prefix(
                o,
                plen,
                qo,
                ql,
            ) {
                Some(an->Node_0)
            } else {
                art.lookup_exact(qo, ql)
            },
{
    let new = art.place(at, i, an);
    let n = an->Node_0;
    lemma_home(art, o, plen);
    lemma_root(art);
    lemma_child(art, at, i);
    lemma_table(art, at);
    assert(i >= 2);
    let v = art.tables[at];
    assert(art.covers(at, i, n as int));
    let prev = art.previous(at, i);
    if v.entry[i] == an {
        lemma_shape_same(art);
    } else if i < v.fringe() {
        lemma_allot_inv(art, at, i, prev, an);
    } else {
        match v.entry[i] {
            ArtEntry::Table(c) => {
                lemma_table(art, c as int);
                lemma_with_entry_shape(art, c as int, 1, an);
                lemma_shape_covers(art, new, at, i, n as int);
                lemma_put_inv(art, c as int, 1, an);
            },
            _ => {
                lemma_with_entry_shape(art, at, i, an);
                lemma_shape_covers(art, new, at, i, n as int);
                lemma_put_inv(art, at, i, an);
            },
        }
    }
    assert forall|qo: Seq<u8>, ql: int| 0 <= ql implies #[trigger] new.lookup_exact(qo, ql)
        == if same_prefix(o, plen, qo, ql) {
        Some(n)
    } else {
        art.lookup_exact(qo, ql)
    } by {
        lemma_home_same(art, o, plen, qo, ql);
        lemma_home(art, qo, ql);
        lemma_home(new, qo, ql);
        if v.entry[i] == an {
        } else if i < v.fringe() {
            lemma_allot_holder(art, at, i, prev, an, qo, ql);
            if art.home(qo, ql) is Some {
                let (t, iq) = art.home(qo, ql)->Some_0;
                if new.holder(t, iq) != art.holder(t, iq) && !same_prefix(o, plen, qo, ql) {
                    lemma_subtree_row(i, iq);
                    lemma_holder_len(art, at, i);
                }
            }
        } else {
            match v.entry[i] {
                ArtEntry::Table(c) => {
                    lemma_table(art, c as int);
                    lemma_put_holder(art, c as int, 1, an, qo, ql);
                    if art.home(qo, ql) is Some {
                        let (t, iq) = art.home(qo, ql)->Some_0;
                        lemma_child(art, t, iq);
                    }
                },
                _ => {
                    lemma_put_holder(art, at, i, an, qo, ql);
                    if art.home(qo, ql) is Some {
                        let (t, iq) = art.home(qo, ql)->Some_0;
                        lemma_child(art, t, iq);
                    }
                },
            }
        }
    }
}

/// **Insertion sets one prefix.** After the insertion of a route for a
/// prefix that is no longer than the address, an exact lookup of that
/// prefix finds the route, and an exact lookup of any other prefix finds
/// what it found before. The tables stay a tree with every route where it
/// may stand.
pub proof fn lemma_insert_exact(art: Art, an: ArtEntry, o: Seq<u8>, plen: int)
    requires
        art.wf(),
        art.inv(),
        art.insert(an, o, plen).tables.len() <= usize::MAX,
        0 <= plen <= art.alen(),
        art.names(an, o, plen),
    ensures
        art.insert(an, o, plen).wf(),
        art.insert(an, o, plen).inv(),
        art.insert(an, o, plen).routes == art.routes,
        art.insert(an, o, plen).strides == art.strides,
        art.tables.len() <= art.insert(an, o, plen).tables.len(),
        forall|qo: Seq<u8>, ql: int|
            0 <= ql ==> #[trigger] art.insert(an, o, plen).lookup_exact(qo, ql) == if same_prefix(
                o,
                plen,
                qo,
                ql,
            ) {
                Some(an->Node_0)
            } else {
                art.lookup_exact(qo, ql)
            },
{
    let new = art.insert(an, o, plen);
    let n = an->Node_0;
    lemma_root(art);
    lemma_table(art, 0);
    if plen == 0 {
        lemma_with_entry_shape(art, 0, 1, an);
        lemma_put_inv(art, 0, 1, an);
        assert(art.home(o, plen) == Some((0int, 1int)));
        assert forall|qo: Seq<u8>, ql: int| 0 <= ql implies #[trigger] new.lookup_exact(qo, ql)
            == if same_prefix(o, plen, qo, ql) {
            Some(n)
        } else {
            art.lookup_exact(qo, ql)
        } by {
            lemma_home_same(art, o, plen, qo, ql);
            lemma_home(art, qo, ql);
            lemma_home(new, qo, ql);
            lemma_put_holder(art, 0, 1, an, qo, ql);
            if art.home(qo, ql) is Some {
                let (t, iq) = art.home(qo, ql)->Some_0;
                lemma_child(art, t, iq);
            }
        }
    } else {
        let (grown, at) = art.grow(0, o, plen);
        match grown.tables[at].slot(o, plen) {
            Some(i) => {
                assert(grown.place(at, i as int, an).tables.len() == grown.tables.len());
            },
            None => {},
        }
        lemma_grow(art, 0, o, plen);
        lemma_home(grown, o, plen);
        lemma_root(grown);
        let i = grown.home(o, plen)->Some_0.1;
        lemma_place(grown, at, i, an, o, plen);
    }
}

/// Where the tables on the path of a prefix exist, the growth of the path
/// adds none.
pub proof fn lemma_find_grow(art: Art, s: int, o: Seq<u8>, plen: int)
    requires
        art.wf(),
        0 <= s < art.tables.len(),
        art.find(s, o, plen) is Some,
    ensures
        art.grow(s, o, plen) == (art, art.find(s, o, plen)->Some_0),
    decreases art.tables.len() - s,
{
    let t = art.tables[s];
    lemma_table(art, s);
    if plen > t.offset + t.bits {
        let j = t.fringe_slot(o) as int;
        lemma_heap_index_row(o, t.offset as int, t.bits);
        lemma_child(art, s, j);
        let c = t.entry[j]->Table_0 as int;
        lemma_table(art, c);
        lemma_find_grow(art, c, o, plen);
    }
}

/// Replacing an entry by itself changes nothing.
pub proof fn lemma_put_same(art: Art, t: int, i: int)
    requires
        0 <= t < art.tables.len(),
        0 <= i < art.tables[t].entry.len(),
    ensures
        art.with_entry(t, i, art.tables[t].entry[i]) == art,
{
    let new = art.with_entry(t, i, art.tables[t].entry[i]);
    assert(new.tables[t].entry =~= art.tables[t].entry);
    assert(new.tables =~= art.tables);
}

/// **Insertion is idempotent.** The insertion of the same entry for the
/// same prefix a second time changes nothing.
pub proof fn lemma_insert_twice(art: Art, an: ArtEntry, o: Seq<u8>, plen: int)
    requires
        art.wf(),
        art.inv(),
        art.insert(an, o, plen).tables.len() <= usize::MAX,
        0 <= plen,
        art.names(an, o, plen),
    ensures
        art.insert(an, o, plen).insert(an, o, plen) == art.insert(an, o, plen),
{
    let once = art.insert(an, o, plen);
    if plen <= art.alen() {
        lemma_insert_exact(art, an, o, plen);
        assert(same_prefix(o, plen, o, plen));
        assert(once.lookup_exact(o, plen) == Some(an->Node_0));
        lemma_home(once, o, plen);
        let (at, i) = once.home(o, plen)->Some_0;
        lemma_child(once, at, i);
        lemma_table(once, at);
        lemma_root(once);
        if plen == 0 {
            lemma_put_same(once, 0, 1);
        } else {
            lemma_find_grow(once, 0, o, plen);
            match once.tables[at].entry[i] {
                ArtEntry::Table(c) => {
                    lemma_table(once, c as int);
                    lemma_put_same(once, c as int, 1);
                },
                _ => {},
            }
        }
    }
}

/// Clearing the slot where a prefix ends leaves an exact lookup of the
/// prefix with nothing to find, and changes the answer for no other
/// prefix.
pub proof fn lemma_clear(art: Art, at: int, i: int, o: Seq<u8>, plen: int)
    requires
        art.wf(),
        art.inv(),
        0 <= plen,
        art.home(o, plen) == Some((at, i)),
    ensures
        art.clear(at, i).wf(),
        art.clear(at, i).inv(),
        art.same_shape(art.clear(at, i)),
        art.clear(at, i).routes == art.routes,
        art.clear(at, i).strides == art.strides,
        art.clear(at, i).tables.len() == art.tables.len(),
        forall|qo: Seq<u8>, ql: int|
            0 <= ql ==> #[trigger] art.clear(at, i).lookup_exact(qo, ql) == if same_prefix(
                o,
                plen,
                qo,
                ql,
            ) {
                None
            } else {
                art.lookup_exact(qo, ql)
            },
{
    let new = art.clear(at, i);
    lemma_home(art, o, plen);
    lemma_root(art);
    lemma_child(art, at, i);
    lemma_child(art, at, i / 2);
    lemma_table(art, at);
    let v = art.tables[at];
    let prev = art.previous(at, i);
    let next = art.restored(at, i);
    let empty = ArtEntry::Empty;
    lemma_shape_same(art);
    if i < v.fringe() {
        if next is Node {
            assert(art.placed(at, i / 2));
            lemma_subtree_of_parent(i);
            lemma_covers_below(art, at, i / 2, i, next->Node_0 as int);
        }
        lemma_allot_inv(art, at, i, prev, next);
    } else {
        match v.entry[i] {
            ArtEntry::Table(c) => {
                lemma_table(art, c as int);
                if art.tables[c as int].default() is Node {
                    lemma_with_entry_shape(art, c as int, 1, empty);
                    lemma_put_inv(art, c as int, 1, empty);
                }
            },
            ArtEntry::Node(_) => {
                lemma_with_entry_shape(art, at, i, empty);
                lemma_put_inv(art, at, i, empty);
            },
            ArtEntry::Empty => {},
        }
    }
    assert forall|qo: Seq<u8>, ql: int| 0 <= ql implies #[trigger] new.lookup_exact(qo, ql)
        == if same_prefix(o, plen, qo, ql) {
        None
    } else {
        art.lookup_exact(qo, ql)
    } by {
        lemma_home_same(art, o, plen, qo, ql);
        lemma_home(art, qo, ql);
        lemma_home(new, qo, ql);
        if i < v.fringe() {
            lemma_allot_holder(art, at, i, prev, next, qo, ql);
            lemma_holder_len(art, at, i);
            if next is Node {
                lemma_covers_len(art, at, i / 2, next->Node_0 as int);
            }
            if art.home(qo, ql) is Some {
                let (t, iq) = art.home(qo, ql)->Some_0;
                if new.holder(t, iq) != art.holder(t, iq) && !same_prefix(o, plen, qo, ql) {
                    lemma_subtree_row(i, iq);
                }
            }
        } else {
            match v.entry[i] {
                ArtEntry::Table(c) => {
                    lemma_table(art, c as int);
                    if art.tables[c as int].default() is Node {
                        lemma_put_holder(art, c as int, 1, empty, qo, ql);
                        if art.home(qo, ql) is Some {
                            let (t, iq) = art.home(qo, ql)->Some_0;
                            lemma_child(art, t, iq);
                        }
                    }
                },
                ArtEntry::Node(_) => {
                    lemma_put_holder(art, at, i, empty, qo, ql);
                    if art.home(qo, ql) is Some {
                        let (t, iq) = art.home(qo, ql)->Some_0;
                        lemma_child(art, t, iq);
                    }
                },
                ArtEntry::Empty => {},
            }
        }
    }
}

/// **Deletion removes one prefix.** After the deletion of a prefix, an
/// exact lookup of that prefix finds nothing, and an exact lookup of any
/// other prefix finds what it found before. The tables stay a tree with
/// every route where it may stand.
pub proof fn lemma_delete_exact(art: Art, o: Seq<u8>, plen: int)
    requires
        art.wf(),
        art.inv(),
        0 <= plen,
    ensures
        art.delete(o, plen).wf(),
        art.delete(o, plen).inv(),
        art.delete(o, plen).routes == art.routes,
        art.delete(o, plen).strides == art.strides,
        art.delete(o, plen).tables.len() == art.tables.len(),
        forall|qo: Seq<u8>, ql: int|
            0 <= ql ==> #[trigger] art.delete(o, plen).lookup_exact(qo, ql) == if same_prefix(
                o,
                plen,
                qo,
                ql,
            ) {
                None
            } else {
                art.lookup_exact(qo, ql)
            },
{
    let new = art.delete(o, plen);
    lemma_home(art, o, plen);
    if plen <= art.alen() && art.home(o, plen) is Some {
        let (at, i) = art.home(o, plen)->Some_0;
        lemma_clear(art, at, i, o, plen);
    } else {
        assert(new == art);
        assert forall|qo: Seq<u8>, ql: int| 0 <= ql implies #[trigger] new.lookup_exact(qo, ql)
            == if same_prefix(o, plen, qo, ql) {
            None
        } else {
            art.lookup_exact(qo, ql)
        } by {
            if same_prefix(o, plen, qo, ql) {
                lemma_exact_same(art, o, qo, plen);
                if plen > art.alen() {
                    lemma_long(art, 0, o, plen);
                }
            }
        }
    }
}

/// The descent along a prefix that is longer than the address runs out of
/// tables.
pub proof fn lemma_long(art: Art, s: int, o: Seq<u8>, plen: int)
    requires
        art.wf(),
        0 <= s < art.tables.len(),
        plen > art.alen(),
    ensures
        art.find(s, o, plen) is None,
    decreases art.tables.len() - s,
{
    let t = art.tables[s];
    lemma_table(art, s);
    let j = t.fringe_slot(o) as int;
    lemma_heap_index_row(o, t.offset as int, t.bits);
    lemma_child(art, s, j);
    if t.entry[j] is Table {
        lemma_long(art, t.entry[j]->Table_0 as int, o, plen);
    }
}

} // verus!
