//! The mathematical model of a routing table: the strides of its levels,
//! its tables and the prefixes of its routes.

use vstd::prelude::*;
use vstd::arithmetic::power2::pow2;
use crate::heap::{in_subtree, lemma_fringe_bounds, lemma_subtree_children, lemma_subtree_fringe};
use crate::table::{ArtEntry, TableView};

verus! {

/// What the model keeps of a route: its prefix.
pub struct Route {
    /// The prefix length, in bits.
    pub len: nat,
    /// The address octets, most significant first.
    pub octets: Seq<u8>,
}

/// The model of a routing table. Table 0 is the root; an entry names a table
/// or a route by its place in `tables` or `routes`.
pub struct Art {
    /// The stride of each level.
    pub strides: Seq<nat>,
    /// All tables, in the order of their creation.
    pub tables: Seq<TableView>,
    /// All routes ever handed to the table, in the order of their creation.
    pub routes: Seq<Route>,
}

/// The number of address bits above level `level`.
pub open spec fn offset_at(strides: Seq<nat>, level: nat) -> nat
    decreases level,
{
    if level == 0 || level > strides.len() {
        0
    } else {
        offset_at(strides, (level - 1) as nat) + strides[level - 1]
    }
}

/// Whether every level of these strides can have a table: each stride is
/// 1 to 30 bits wide and spans at most four octets, and the address has at
/// most 255 bits.
pub open spec fn strides_ok(strides: Seq<nat>) -> bool {
    &&& strides.len() >= 1
    &&& offset_at(strides, strides.len()) <= 255
    &&& forall|l: int|
        0 <= l < strides.len() ==> 1 <= #[trigger] strides[l] <= 30 && offset_at(strides, l as nat)
            % 8 + strides[l] <= 32
}

/// A table of level `level` with all slots empty.
pub open spec fn empty_table(strides: Seq<nat>, level: nat, parent: Option<int>, index: nat) -> TableView {
    TableView {
        level,
        bits: strides[level as int],
        offset: offset_at(strides, level),
        index,
        parent,
        entry: Seq::new(2 * pow2(strides[level as int]), |i: int| ArtEntry::Empty),
    }
}

impl Art {
    /// The address length: the sum of all strides.
    pub open spec fn alen(self) -> nat {
        offset_at(self.strides, self.strides.len())
    }

    /// The table that would hang in slot `index` of table `parent`, or the
    /// root table, with all slots empty.
    pub open spec fn fresh_table(self, parent: Option<int>, index: nat) -> TableView {
        match parent {
            Some(p) => empty_table(self.strides, self.tables[p].level + 1, parent, index),
            None => empty_table(self.strides, 0, parent, index),
        }
    }

    /// Whether an entry names something that exists, and is no table.
    pub open spec fn is_leaf(self, e: ArtEntry) -> bool {
        match e {
            ArtEntry::Table(_) => false,
            ArtEntry::Node(n) => n < self.routes.len(),
            ArtEntry::Empty => true,
        }
    }

    /// Table `t` has the shape of its level and hangs where it says.
    pub open spec fn table_ok(self, t: int) -> bool {
        let v = self.tables[t];
        &&& v.wf()
        &&& v.level < self.strides.len()
        &&& v.bits == self.strides[v.level as int]
        &&& v.offset == offset_at(self.strides, v.level)
        &&& match v.parent {
            None => t == 0 && v.level == 0 && v.index == 0,
            Some(p) => {
                &&& 0 <= p < t
                &&& self.tables[p].level + 1 == v.level
                &&& self.tables[p].fringe() <= v.index < 2 * self.tables[p].fringe()
                &&& self.tables[p].entry[v.index as int] == ArtEntry::Table(t as usize)
            },
        }
    }

    /// Slot `i` of table `t` names something that exists; a child table
    /// hangs in the slot that names it.
    pub open spec fn entry_ok(self, t: int, i: int) -> bool {
        match self.tables[t].entry[i] {
            ArtEntry::Table(c) => {
                &&& 0 < c < self.tables.len()
                &&& self.tables[c as int].parent == Some(t)
                &&& self.tables[c as int].index == i
            },
            ArtEntry::Node(n) => n < self.routes.len(),
            ArtEntry::Empty => true,
        }
    }

    /// Route `n` has an octet for every bit of an address.
    pub open spec fn route_ok(self, n: int) -> bool {
        8 * self.routes[n].octets.len() >= self.alen()
    }

    /// The tables form a tree below table 0, level by level, and every
    /// route has a whole address.
    pub open spec fn wf(self) -> bool {
        &&& strides_ok(self.strides)
        &&& 1 <= self.tables.len() <= usize::MAX
        &&& self.tables[0].parent is None
        &&& forall|t: int| 0 <= t < self.tables.len() ==> #[trigger] self.table_ok(t)
        &&& forall|t: int, i: int|
            0 <= t < self.tables.len() && 0 <= i < self.tables[t].entry.len()
                ==> #[trigger] self.entry_ok(t, i)
        &&& forall|n: int| 0 <= n < self.routes.len() ==> #[trigger] self.route_ok(n)
    }

    /// The model with slot `i` of table `t` replaced, if there is such a
    /// table.
    pub open spec fn with_entry(self, t: int, i: int, e: ArtEntry) -> Art {
        if 0 <= t < self.tables.len() {
            Art { tables: self.tables.update(t, self.tables[t].with_entry(i, e)), ..self }
        } else {
            self
        }
    }
}

/// What allotment makes of an entry that it visits: an empty slot takes
/// the new entry, a route is replaced where it is the previous entry, and a
/// table stays.
pub open spec fn allot_entry(e: ArtEntry, prev: ArtEntry, new: ArtEntry) -> ArtEntry {
    match e {
        ArtEntry::Empty => new,
        ArtEntry::Node(_) => if e == prev {
            new
        } else {
            e
        },
        ArtEntry::Table(_) => e,
    }
}

impl Art {
    /// What a visit of the slots of table `at` that `sel` selects makes of
    /// table `u`: in `at` itself every selected slot is visited; a child
    /// that hangs in a selected slot has its default replaced where that is
    /// the previous entry; every other table stays.
    pub open spec fn visit_table(
        self,
        u: int,
        at: int,
        sel: spec_fn(int) -> bool,
        prev: ArtEntry,
        new: ArtEntry,
    ) -> TableView {
        let v = self.tables[u];
        if u == at {
            TableView {
                entry: Seq::new(
                    v.entry.len(),
                    |j: int|
                        if sel(j) {
                            allot_entry(v.entry[j], prev, new)
                        } else {
                            v.entry[j]
                        },
                ),
                ..v
            }
        } else if v.parent == Some(at) && sel(v.index as int) && v.default() == prev {
            v.with_entry(1, new)
        } else {
            v
        }
    }

    /// The model after a visit of the slots of table `at` that `sel`
    /// selects.
    pub open spec fn visit(self, at: int, sel: spec_fn(int) -> bool, prev: ArtEntry, new: ArtEntry) -> Art {
        Art {
            tables: Seq::new(self.tables.len(), |u: int| self.visit_table(u, at, sel, prev, new)),
            ..self
        }
    }

    /// The model after allotment of `new` in place of `prev` from slot `k`
    /// of table `at` downwards: a visit of the subtree of `k`.
    pub open spec fn allot(self, at: int, k: int, prev: ArtEntry, new: ArtEntry) -> Art {
        self.visit(at, |j: int| in_subtree(k, j), prev, new)
    }

    /// The model after allotment has visited slot `k` of table `at` alone.
    pub open spec fn allot_one(self, at: int, k: int, prev: ArtEntry, new: ArtEntry) -> Art {
        match self.tables[at].entry[k] {
            ArtEntry::Table(c) => if self.tables[c as int].default() == prev {
                self.with_entry(c as int, 1, new)
            } else {
                self
            },
            ArtEntry::Node(_) => if self.tables[at].entry[k] == prev {
                self.with_entry(at, k, new)
            } else {
                self
            },
            ArtEntry::Empty => self.with_entry(at, k, new),
        }
    }
}

/// Visiting one slot keeps the tables a tree.
pub proof fn lemma_allot_one_wf(art: Art, at: int, k: int, prev: ArtEntry, new: ArtEntry)
    requires
        art.wf(),
        0 <= at < art.tables.len(),
        1 <= k < art.tables[at].entry.len(),
        art.is_leaf(new),
    ensures
        art.allot_one(at, k, prev, new).wf(),
        art.allot_one(at, k, prev, new).tables.len() == art.tables.len(),
        art.allot_one(at, k, prev, new).tables[at].entry.len() == art.tables[at].entry.len(),
        art.allot_one(at, k, prev, new).tables[at].bits == art.tables[at].bits,
        art.allot_one(at, k, prev, new).routes == art.routes,
{
    assert(art.entry_ok(at, k));
    match art.tables[at].entry[k] {
        ArtEntry::Table(c) => {
            assert(art.table_ok(c as int));
            assert(art.table_ok(at));
            lemma_fringe_bounds(art.tables[c as int].bits);
            lemma_fringe_bounds(art.tables[at].bits);
            assert(art.entry_ok(c as int, 1));
            if art.tables[c as int].default() == prev {
                if art.tables[c as int].default() is Table {
                    let d = art.tables[c as int].default()->Table_0;
                    assert(art.table_ok(d as int));
                    assert(false);
                }
                lemma_with_entry_wf(art, c as int, 1, new);
            }
        },
        ArtEntry::Node(_) => {
            if art.tables[at].entry[k] == prev {
                lemma_with_entry_wf(art, at, k, new);
            }
        },
        ArtEntry::Empty => {
            lemma_with_entry_wf(art, at, k, new);
        },
    }
}

/// Visiting slot `k` alone is the visit that selects `k` alone.
pub proof fn lemma_allot_one_visit(art: Art, at: int, k: int, prev: ArtEntry, new: ArtEntry)
    requires
        art.wf(),
        0 <= at < art.tables.len(),
        1 <= k < art.tables[at].entry.len(),
    ensures
        art.allot_one(at, k, prev, new) == art.visit(at, |j: int| j == k, prev, new),
{
    let one = art.allot_one(at, k, prev, new);
    let sel = |j: int| j == k;
    let whole = art.visit(at, sel, prev, new);
    assert(art.entry_ok(at, k));
    assert forall|u: int| 0 <= u < whole.tables.len() implies whole.tables[u] == one.tables[u] by {
        assert(art.table_ok(u));
        if u == at {
            assert(whole.tables[u].entry =~= one.tables[u].entry);
        } else if art.tables[u].parent == Some(at) && art.tables[u].index == k {
            assert(whole.tables[u].entry =~= one.tables[u].entry);
        } else {
            match art.tables[at].entry[k] {
                ArtEntry::Table(c) => {
                    assert(c != u);
                },
                _ => {},
            }
        }
    }
    assert(whole.tables =~= one.tables);
}

/// Two visits of one table, one after the other, are one visit of the slots
/// that either selects.
pub proof fn lemma_visit_twice(
    art: Art,
    at: int,
    first: spec_fn(int) -> bool,
    second: spec_fn(int) -> bool,
    both: spec_fn(int) -> bool,
    prev: ArtEntry,
    new: ArtEntry,
)
    requires
        art.wf(),
        0 <= at < art.tables.len(),
        !(new is Table),
        forall|j: int|
            0 <= j < art.tables[at].entry.len() ==> #[trigger] both(j) == (first(j) || second(j)),
    ensures
        art.visit(at, first, prev, new).visit(at, second, prev, new) == art.visit(at, both, prev, new),
{
    let mid = art.visit(at, first, prev, new);
    let parts = mid.visit(at, second, prev, new);
    let whole = art.visit(at, both, prev, new);
    assert(art.table_ok(at));
    lemma_fringe_bounds(art.tables[at].bits);
    assert forall|u: int| 0 <= u < whole.tables.len() implies whole.tables[u] == parts.tables[u] by {
        assert(art.table_ok(u));
        lemma_fringe_bounds(art.tables[u].bits);
        if u == at {
            assert forall|j: int| 0 <= j < art.tables[u].entry.len() implies whole.tables[u].entry[j]
                == parts.tables[u].entry[j] by {
                assert(both(j) == (first(j) || second(j)));
            }
            assert(whole.tables[u].entry =~= parts.tables[u].entry);
        } else {
            if art.tables[u].parent == Some(at) {
                assert(both(art.tables[u].index as int) == (first(art.tables[u].index as int)
                    || second(art.tables[u].index as int)));
            }
            assert(whole.tables[u].entry =~= parts.tables[u].entry);
        }
    }
    assert(whole.tables =~= parts.tables);
}

/// Allotment from a fringe slot visits that slot alone; from a slot above
/// the fringe it visits the slot and then allots from its two children.
pub proof fn lemma_allot_unfold(art: Art, at: int, k: int, prev: ArtEntry, new: ArtEntry)
    requires
        art.wf(),
        0 <= at < art.tables.len(),
        1 <= k < art.tables[at].entry.len(),
        art.is_leaf(new),
    ensures
        k >= art.tables[at].fringe() ==> art.allot(at, k, prev, new) == art.allot_one(at, k, prev, new),
        k < art.tables[at].fringe() ==> art.allot(at, k, prev, new) == art.allot_one(
            at,
            k,
            prev,
            new,
        ).allot(at, 2 * k, prev, new).allot(at, 2 * k + 1, prev, new),
{
    let mf = art.tables[at].fringe() as int;
    let top = |j: int| j == k;
    let left = |j: int| in_subtree(2 * k, j);
    let right = |j: int| in_subtree(2 * k + 1, j);
    let whole = |j: int| in_subtree(k, j);
    assert(art.table_ok(at));
    lemma_allot_one_visit(art, at, k, prev, new);
    if k >= mf {
        let empty = |j: int| false;
        assert forall|j: int| 0 <= j < art.tables[at].entry.len() implies #[trigger] whole(j) == (top(j)
            || empty(j)) by {
            if j > k {
                lemma_subtree_fringe(k, j, mf);
            }
        }
        lemma_visit_twice(art, at, top, empty, whole, prev, new);
        lemma_visit_nothing(art.visit(at, top, prev, new), at, empty, prev, new);
    } else {
        let upper = |j: int| j == k || in_subtree(2 * k, j);
        assert forall|j: int| 0 <= j < art.tables[at].entry.len() implies #[trigger] upper(j) == (top(j)
            || left(j)) by {}
        lemma_visit_twice(art, at, top, left, upper, prev, new);
        lemma_allot_one_wf(art, at, k, prev, new);
        assert forall|j: int| 0 <= j < art.tables[at].entry.len() implies #[trigger] whole(j) == (upper(j)
            || right(j)) by {
            if j > k {
                lemma_subtree_children(k, j);
            }
        }
        lemma_visit_twice(art, at, upper, right, whole, prev, new);
    }
}

/// A visit that selects no slot changes nothing.
pub proof fn lemma_visit_nothing(art: Art, at: int, sel: spec_fn(int) -> bool, prev: ArtEntry, new: ArtEntry)
    requires
        forall|j: int| !#[trigger] sel(j),
    ensures
        art.visit(at, sel, prev, new) == art,
{
    let whole = art.visit(at, sel, prev, new);
    assert forall|u: int| 0 <= u < whole.tables.len() implies whole.tables[u] == art.tables[u] by {
        assert(whole.tables[u].entry =~= art.tables[u].entry);
    }
    assert(whole.tables =~= art.tables);
}

/// Offsets grow by one stride per level.
pub proof fn lemma_offset_step(strides: Seq<nat>, level: nat)
    requires
        level < strides.len(),
    ensures
        offset_at(strides, level + 1) == offset_at(strides, level) + strides[level as int],
{
}

/// Where all strides are `width` bits wide, level `level` lies `level`
/// times `width` bits into the address.
pub proof fn lemma_offset_even(strides: Seq<nat>, width: nat, level: nat)
    requires
        level <= strides.len(),
        forall|l: int| 0 <= l < strides.len() ==> strides[l] == width,
    ensures
        offset_at(strides, level) == level * width,
    decreases level,
{
    if level > 0 {
        let up = (level - 1) as nat;
        lemma_offset_even(strides, width, up);
        assert(strides[level - 1] == width);
        assert(level * width == up * width + width) by (nonlinear_arith)
            requires
                level == up + 1,
        ;
    } else {
        assert(level * width == 0) by (nonlinear_arith)
            requires
                level == 0,
        ;
    }
}

/// Offsets grow with the level.
pub proof fn lemma_offset_grows(strides: Seq<nat>, a: nat, b: nat)
    requires
        a <= b <= strides.len(),
    ensures
        offset_at(strides, a) <= offset_at(strides, b),
    decreases b - a,
{
    if a < b {
        lemma_offset_grows(strides, a, (b - 1) as nat);
    }
}

/// Replacing a leaf by a leaf keeps the tables a tree.
pub proof fn lemma_with_entry_wf(art: Art, t: int, i: int, e: ArtEntry)
    requires
        art.wf(),
        0 <= t < art.tables.len(),
        0 <= i < art.tables[t].entry.len(),
        !(art.tables[t].entry[i] is Table),
        art.is_leaf(e),
    ensures
        art.with_entry(t, i, e).wf(),
{
    let new = art.with_entry(t, i, e);
    assert forall|n: int| 0 <= n < new.routes.len() implies #[trigger] new.route_ok(n) by {
        assert(art.route_ok(n));
    }
    assert forall|u: int| 0 <= u < new.tables.len() implies #[trigger] new.table_ok(u) by {
        assert(art.table_ok(u));
        match art.tables[u].parent {
            Some(p) => {
                assert(art.table_ok(p));
                assert(new.tables[p].entry[art.tables[u].index as int] == ArtEntry::Table(u as usize));
            },
            None => {},
        }
    }
    assert forall|u: int, j: int|
        0 <= u < new.tables.len() && 0 <= j < new.tables[u].entry.len() implies #[trigger] new.entry_ok(
        u,
        j,
    ) by {
        assert(art.entry_ok(u, j));
        match new.tables[u].entry[j] {
            ArtEntry::Table(c) => {
                assert(art.table_ok(c as int));
            },
            _ => {},
        }
    }
}

} // verus!
