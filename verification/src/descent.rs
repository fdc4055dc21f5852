//! What the operations of a routing table do to its model: the descent
//! along a prefix, the growth of the path that an insertion needs, and the
//! change in the table where the prefix ends.

use vstd::prelude::*;
use crate::heap::lemma_fringe_bounds;
use crate::model::{Art, lemma_offset_grows, lemma_offset_step, offset_at};
use crate::table::ArtEntry;

verus! {

/// The route that an entry names, if it names one.
pub open spec fn route_of(e: ArtEntry) -> Option<usize> {
    match e {
        ArtEntry::Node(n) => Some(n),
        _ => None,
    }
}

impl Art {
    /// The table in which the prefix `(o, plen)` ends, on the descent from
    /// table `at`; nothing where the descent runs out of tables first.
    pub open spec fn find(self, at: int, o: Seq<u8>, plen: int) -> Option<int>
        decreases self.tables.len() - at,
    {
        let t = self.tables[at];
        if plen <= t.offset + t.bits {
            Some(at)
        } else {
            match t.entry[t.fringe_slot(o) as int] {
                ArtEntry::Table(c) => if at < c < self.tables.len() {
                    self.find(c as int, o, plen)
                } else {
                    None
                },
                _ => None,
            }
        }
    }

    /// The route that the descent from table `at` finds for `(o, plen)`,
    /// where `best` is the last default route seen above `at`.
    pub open spec fn lpm(self, at: int, best: ArtEntry, o: Seq<u8>, plen: int) -> Option<usize>
        decreases self.tables.len() - at,
    {
        let t = self.tables[at];
        if plen > t.offset + t.bits {
            match t.entry[t.fringe_slot(o) as int] {
                ArtEntry::Table(c) => if at < c < self.tables.len() {
                    let below = self.tables[c as int].default();
                    self.lpm(
                        c as int,
                        if below is Node {
                            below
                        } else {
                            best
                        },
                        o,
                        plen,
                    )
                } else {
                    None
                },
                ArtEntry::Node(n) => Some(n),
                ArtEntry::Empty => route_of(best),
            }
        } else {
            match t.slot(o, plen) {
                Some(i) => match t.entry[i as int] {
                    ArtEntry::Node(n) => Some(n),
                    ArtEntry::Table(c) => match self.tables[c as int].default() {
                        ArtEntry::Node(n) => Some(n),
                        _ => route_of(best),
                    },
                    ArtEntry::Empty => route_of(best),
                },
                None => None,
            }
        }
    }

    /// The route that a longest-prefix lookup of `(o, plen)` returns.
    pub open spec fn lookup(self, o: Seq<u8>, plen: int) -> Option<usize> {
        self.lpm(0, self.tables[0].default(), o, plen)
    }

    /// The route that `e` names, where it is a route of length `plen`.
    pub open spec fn route_of_len(self, e: ArtEntry, plen: int) -> Option<usize> {
        match e {
            ArtEntry::Node(n) => if self.routes[n as int].len == plen {
                Some(n)
            } else {
                None
            },
            _ => None,
        }
    }

    /// The entry that stands for the prefix that ends in slot `i` of table
    /// `at`: the slot's entry, or the default of the child that hangs there.
    pub open spec fn holder(self, at: int, i: int) -> ArtEntry {
        match self.tables[at].entry[i] {
            ArtEntry::Table(c) => self.tables[c as int].default(),
            e => e,
        }
    }

    /// The route that an exact lookup of `(o, plen)` returns.
    pub open spec fn lookup_exact(self, o: Seq<u8>, plen: int) -> Option<usize> {
        match self.find(0, o, plen) {
            Some(at) => match self.tables[at].slot(o, plen) {
                Some(i) => self.route_of_len(self.holder(at, i as int), plen),
                None => None,
            },
            None => None,
        }
    }

    /// The model with a new table hung in slot `j` of table `at`. The new
    /// table takes the slot's entry as its default.
    pub open spec fn graft(self, at: int, j: int) -> Art {
        let child = self.fresh_table(Some(at), j as nat).with_entry(1, self.tables[at].entry[j]);
        Art {
            tables: self.tables.update(
                at,
                self.tables[at].with_entry(j, ArtEntry::Table(self.tables.len() as usize)),
            ).push(child),
            ..self
        }
    }

    /// The model after the descent from table `at` along `(o, plen)` that
    /// hangs a new table wherever the path has none, and the table in
    /// which the prefix then ends.
    pub open spec fn grow(self, at: int, o: Seq<u8>, plen: int) -> (Art, int)
        decreases self.strides.len() - self.tables[at].level,
    {
        let t = self.tables[at];
        if plen <= t.offset + t.bits || t.level + 1 >= self.strides.len() || !(0 <= at
            < self.tables.len()) {
            (self, at)
        } else {
            let j = t.fringe_slot(o) as int;
            match t.entry[j] {
                ArtEntry::Table(c) => if self.tables[c as int].level == t.level + 1 {
                    self.grow(c as int, o, plen)
                } else {
                    (self, at)
                },
                _ => self.graft(at, j).grow(self.tables.len() as int, o, plen),
            }
        }
    }

    /// The entry that an operation on slot `i` of table `at` takes for the
    /// previous one: the slot's entry, or the default of a child that
    /// hangs there.
    pub open spec fn previous(self, at: int, i: int) -> ArtEntry {
        self.holder(at, i)
    }

    /// The model after `an` is put in slot `i` of table `at`: nothing
    /// changes where the slot holds `an` already; above the fringe `an` is
    /// allotted in place of the previous entry; at the fringe it replaces
    /// the slot's entry, or the default of the child that hangs there.
    pub open spec fn place(self, at: int, i: int, an: ArtEntry) -> Art {
        let t = self.tables[at];
        if t.entry[i] == an {
            self
        } else if i < t.fringe() {
            self.allot(at, i, self.previous(at, i), an)
        } else {
            match t.entry[i] {
                ArtEntry::Table(c) => self.with_entry(c as int, 1, an),
                _ => self.with_entry(at, i, an),
            }
        }
    }

    /// The model after the insertion of `an` for the prefix `(o, plen)`.
    pub open spec fn insert(self, an: ArtEntry, o: Seq<u8>, plen: int) -> Art {
        if plen > self.alen() {
            self
        } else if plen == 0 {
            self.with_entry(0, 1, an)
        } else {
            let (grown, at) = self.grow(0, o, plen);
            match grown.tables[at].slot(o, plen) {
                Some(i) => grown.place(at, i as int, an),
                None => grown,
            }
        }
    }

    /// The entry that slot `i` of table `at` falls back to when its route
    /// is deleted: that of the slot above it in the heap, but nothing from
    /// slot 1.
    pub open spec fn restored(self, at: int, i: int) -> ArtEntry {
        if i / 2 > 1 {
            self.tables[at].entry[i / 2]
        } else {
            ArtEntry::Empty
        }
    }

    /// The model after slot `i` of table `at` is cleared: above the fringe
    /// the restored entry is allotted in place of the previous one; at the
    /// fringe a route in the slot, or in the default of the child that
    /// hangs there, is removed.
    pub open spec fn clear(self, at: int, i: int) -> Art {
        let t = self.tables[at];
        if i < t.fringe() {
            self.allot(at, i, self.previous(at, i), self.restored(at, i))
        } else {
            match t.entry[i] {
                ArtEntry::Table(c) => if self.tables[c as int].default() is Node {
                    self.with_entry(c as int, 1, ArtEntry::Empty)
                } else {
                    self
                },
                ArtEntry::Node(_) => self.with_entry(at, i, ArtEntry::Empty),
                ArtEntry::Empty => self,
            }
        }
    }

    /// The model after the deletion of the prefix `(o, plen)`.
    pub open spec fn delete(self, o: Seq<u8>, plen: int) -> Art {
        if plen > self.alen() {
            self
        } else {
            match self.find(0, o, plen) {
                Some(at) => match self.tables[at].slot(o, plen) {
                    Some(i) => self.clear(at, i as int),
                    None => self,
                },
                None => self,
            }
        }
    }
}

/// In a tree of tables, every table has the shape of its level and lies
/// within the address.
pub proof fn lemma_table(art: Art, at: int)
    requires
        art.wf(),
        0 <= at < art.tables.len(),
    ensures
        art.tables[at].wf(),
        2 <= art.tables[at].fringe() <= 0x4000_0000,
        art.tables[at].entry.len() == 2 * art.tables[at].fringe(),
        art.tables[at].level < art.strides.len(),
        art.tables[at].offset == offset_at(art.strides, art.tables[at].level),
        art.tables[at].offset + art.tables[at].bits == offset_at(
            art.strides,
            art.tables[at].level + 1,
        ),
        art.tables[at].offset + art.tables[at].bits <= art.alen(),
        art.is_leaf(art.tables[at].default()),
{
    assert(art.table_ok(at));
    lemma_fringe_bounds(art.tables[at].bits);
    assert(art.entry_ok(at, 1));
    if art.tables[at].default() is Table {
        assert(art.table_ok(art.tables[at].default()->Table_0 as int));
    }
    lemma_offset_step(art.strides, art.tables[at].level);
    lemma_offset_grows(art.strides, art.tables[at].level + 1, art.strides.len());
}

/// The root table lies at the top of the address.
pub proof fn lemma_root(art: Art)
    requires
        art.wf(),
    ensures
        art.tables[0].level == 0,
        art.tables[0].offset == 0,
        art.tables[0].parent is None,
{
    assert(art.table_ok(0));
}

/// In a tree of tables, a slot above the fringe holds no table, and a child
/// lies one level below its parent and after it in the arena.
pub proof fn lemma_child(art: Art, at: int, i: int)
    requires
        art.wf(),
        0 <= at < art.tables.len(),
        0 <= i < art.tables[at].entry.len(),
    ensures
        art.tables[at].entry[i] matches ArtEntry::Table(c) ==> {
            &&& at < c < art.tables.len()
            &&& art.tables[c as int].level == art.tables[at].level + 1
            &&& art.tables[c as int].offset == art.tables[at].offset + art.tables[at].bits
            &&& art.tables[c as int].parent == Some(at)
            &&& art.tables[c as int].index == i
            &&& i >= art.tables[at].fringe()
            &&& art.tables[c as int].entry.len() >= 4
            &&& art.is_leaf(art.tables[c as int].default())
        },
        !(art.tables[at].entry[i] is Table) ==> art.is_leaf(art.tables[at].entry[i]),
        art.is_leaf(art.holder(at, i)),
{
    assert(art.entry_ok(at, i));
    lemma_table(art, at);
    match art.tables[at].entry[i] {
        ArtEntry::Table(c) => {
            assert(art.table_ok(c as int));
            lemma_table(art, c as int);
        },
        _ => {},
    }
}

/// A table in which a prefix of at most `alen` bits does not end has a
/// level below it.
pub proof fn lemma_level_below(art: Art, at: int, plen: int)
    requires
        art.wf(),
        0 <= at < art.tables.len(),
        art.tables[at].offset + art.tables[at].bits < plen <= art.alen(),
    ensures
        art.tables[at].level + 1 < art.strides.len(),
{
    let v = art.tables[at];
    assert(art.table_ok(at));
    lemma_offset_step(art.strides, v.level);
    if v.level + 1 >= art.strides.len() {
        assert(v.level + 1 == art.strides.len());
        assert(v.offset + v.bits == art.alen());
    }
}

/// Hanging a new table in a fringe slot that holds none keeps the tables a
/// tree.
pub proof fn lemma_graft_wf(art: Art, at: int, j: int)
    requires
        art.wf(),
        art.tables.len() < usize::MAX,
        0 <= at < art.tables.len(),
        art.tables[at].fringe() <= j < art.tables[at].entry.len(),
        !(art.tables[at].entry[j] is Table),
        art.tables[at].level + 1 < art.strides.len(),
    ensures
        art.graft(at, j).wf(),
{
    let new = art.graft(at, j);
    let c = art.tables.len() as int;
    let l = art.tables[at].level + 1;
    assert(art.table_ok(at));
    assert(art.entry_ok(at, j));
    lemma_offset_step(art.strides, art.tables[at].level);
    lemma_offset_grows(art.strides, l + 1, art.strides.len());
    lemma_fringe_bounds(art.strides[l as int]);
    assert forall|n: int| 0 <= n < new.routes.len() implies #[trigger] new.route_ok(n) by {
        assert(art.route_ok(n));
    }
    assert forall|u: int| 0 <= u < new.tables.len() implies #[trigger] new.table_ok(u) by {
        if u < c {
            assert(art.table_ok(u));
            match art.tables[u].parent {
                Some(p) => {
                    assert(art.table_ok(p));
                    assert(new.tables[p].entry[art.tables[u].index as int] == ArtEntry::Table(
                        u as usize,
                    ));
                },
                None => {},
            }
        } else {
            assert(new.tables[at].entry[j] == ArtEntry::Table(c as usize));
        }
    }
    assert forall|u: int, i: int|
        0 <= u < new.tables.len() && 0 <= i < new.tables[u].entry.len() implies #[trigger] new.entry_ok(
        u,
        i,
    ) by {
        if u < c {
            assert(art.entry_ok(u, i));
            match new.tables[u].entry[i] {
                ArtEntry::Table(d) => {
                    if d != c {
                        assert(art.table_ok(d as int));
                    }
                },
                _ => {},
            }
        }
    }
}

} // verus!
