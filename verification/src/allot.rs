//! Allotment: handing a route down the heap of a table to every slot that
//! still holds what the route replaces.

use vstd::prelude::*;
use crate::heap::lemma_fringe_bounds;
use crate::model::{lemma_allot_one_wf, lemma_allot_unfold};
use crate::prefix::Prefix;
use crate::root::ArtRoot;
use crate::table::ArtEntry;

verus! {

/// Puts `new` in place of `prev` in slot `i` of table `at` and in every slot
/// below it in the table's heap. An empty slot takes `new`; a route is
/// replaced where it is `prev`; a child table is not entered, and its default
/// is replaced where it is `prev`.
pub fn art_allot<P: Prefix, D>(
    root: &mut ArtRoot<P, D>,
    at: usize,
    i: u32,
    prev: ArtEntry,
    new: &ArtEntry,
)
    requires
        old(root).wf(),
        at < old(root)@.tables.len(),
        1 <= i < old(root)@.tables[at as int].entry.len(),
        old(root)@.is_leaf(*new),
    ensures
        final(root).wf(),
        final(root)@ == old(root)@.allot(at as int, i as int, prev, *new),
        final(root).nodes() == old(root).nodes(),
        final(root)@.strides == old(root)@.strides,
        final(root)@.routes == old(root)@.routes,
    decreases old(root)@.tables[at as int].entry.len() - i,
{
    let mut k: u32 = i;
    let ghost before = root@;
    proof {
        lemma_allot_unfold(before, at as int, k as int, prev, *new);
        lemma_allot_one_wf(before, at as int, k as int, prev, *new);
        assert(before.entry_ok(at as int, k as int));
        assert(before.table_ok(at as int));
        lemma_fringe_bounds(before.tables[at as int].bits);
    }

    let exist = root.table(at).get_entry(k);
    match exist {
        ArtEntry::Table(table) => {
            proof {
                assert(before.table_ok(table as int));
                lemma_fringe_bounds(before.tables[table as int].bits);
                assert(before.entry_ok(table as int, 1));
            }
            let default = root.table(table).get_default();
            if default == prev {
                proof {
                    if default is Table {
                        assert(before.table_ok(default->Table_0 as int));
                    }
                }
                root.put(table, 1, *new);
            }
        },
        ArtEntry::Node(_) => {
            if exist == prev {
                root.put(at, k, *new);
            }
        },
        ArtEntry::Empty => {
            root.put(at, k, *new);
        },
    }
    assert(root@ == before.allot_one(at as int, k as int, prev, *new));

    if k >= root.table(at).minfringe() {
        return ;
    }
    k = k << 1;
    proof {
        assert(k == 2 * i) by (bit_vector)
            requires
                k == i << 1,
                i < 0x4000_0000u32,
        ;
    }
    art_allot(root, at, k, prev, new);
    k += 1;
    art_allot(root, at, k, prev, new);
}

} // verus!
