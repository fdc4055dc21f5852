//! The order in which a traversal meets the routes of a routing table:
//! slot by slot through each table, and into a child table where a slot
//! holds one.

use vstd::prelude::*;
use crate::descent::lemma_child;
use crate::model::Art;
use crate::table::ArtEntry;

verus! {

impl Art {
    /// Whether slot `i` of table `t` is the slot in which the prefix of
    /// route `n` ends. Allotment copies a route to slots below that one,
    /// and a traversal passes over the copies.
    pub open spec fn at_home(self, t: int, i: int, n: int) -> bool {
        self.tables[t].slot(self.routes[n].octets, self.routes[n].len as int) == Some(i as nat)
    }

    /// The routes that slot `i` of table `t` yields: the route in it, if
    /// it is at home there, or all that the child table in it yields.
    pub open spec fn walk_slot(self, t: int, i: int) -> Seq<usize>
        decreases self.tables.len() - t, 0int, 0int,
    {
        match self.tables[t].entry[i] {
            ArtEntry::Node(n) => if self.at_home(t, i, n as int) {
                seq![n]
            } else {
                Seq::empty()
            },
            ArtEntry::Table(c) => if t < c < self.tables.len() {
                self.walk(c as int, 1)
            } else {
                Seq::empty()
            },
            ArtEntry::Empty => Seq::empty(),
        }
    }

    /// The routes that the slots of table `t` yield from slot `i` on.
    pub open spec fn walk(self, t: int, i: int) -> Seq<usize>
        decreases self.tables.len() - t, 1int, self.tables[t].entry.len() - i,
    {
        if 0 <= i < self.tables[t].entry.len() {
            self.walk_slot(t, i) + self.walk(t, i + 1)
        } else {
            Seq::empty()
        }
    }

    /// The routes that are left above table `t` once `t` is done: those of
    /// its parent after the slot in which `t` hangs, and so on up to the
    /// root.
    pub open spec fn walk_above(self, t: int) -> Seq<usize>
        decreases t,
    {
        match self.tables[t].parent {
            Some(p) => if 0 <= p < t {
                self.walk(p, self.tables[t].index as int + 1) + self.walk_above(p)
            } else {
                Seq::empty()
            },
            None => Seq::empty(),
        }
    }

    /// The routes that a traversal which stands at slot `i` of table `t`
    /// still has to yield.
    pub open spec fn walk_rest(self, t: int, i: int) -> Seq<usize> {
        self.walk(t, i) + self.walk_above(t)
    }

    /// All routes in the order of the traversal.
    pub open spec fn walk_all(self) -> Seq<usize> {
        self.walk(0, 1)
    }

    /// The number of steps that slot `i` of table `t` takes: one for the
    /// slot, and for a child table its own steps and one to come back.
    pub open spec fn steps_slot(self, t: int, i: int) -> nat
        decreases self.tables.len() - t, 0int, 0int,
    {
        match self.tables[t].entry[i] {
            ArtEntry::Table(c) => if t < c < self.tables.len() {
                2 + self.steps(c as int, 1)
            } else {
                1
            },
            _ => 1,
        }
    }

    /// The number of steps that the slots of table `t` take from slot `i`
    /// on.
    pub open spec fn steps(self, t: int, i: int) -> nat
        decreases self.tables.len() - t, 1int, self.tables[t].entry.len() - i,
    {
        if 0 <= i < self.tables[t].entry.len() {
            self.steps_slot(t, i) + self.steps(t, i + 1)
        } else {
            0
        }
    }

    /// The number of steps that are left above table `t` once `t` is done.
    pub open spec fn steps_above(self, t: int) -> nat
        decreases t,
    {
        match self.tables[t].parent {
            Some(p) => if 0 <= p < t {
                1 + self.steps(p, self.tables[t].index as int + 1) + self.steps_above(p)
            } else {
                0
            },
            None => 0,
        }
    }

    /// The number of steps that a traversal which stands at slot `i` of
    /// table `t` still has to take.
    pub open spec fn steps_rest(self, t: int, i: int) -> nat {
        self.steps(t, i) + self.steps_above(t)
    }
}

/// Going down into the child table in slot `i` leaves the same routes to
/// yield, in one step.
pub proof fn lemma_walk_down(art: Art, t: int, i: int)
    requires
        art.wf(),
        0 <= t < art.tables.len(),
        0 <= i < art.tables[t].entry.len(),
        art.tables[t].entry[i] is Table,
    ensures
        ({
            let c = art.tables[t].entry[i]->Table_0 as int;
            &&& art.walk_rest(c, 1) == art.walk_rest(t, i)
            &&& art.steps_rest(c, 1) + 1 == art.steps_rest(t, i)
        }),
{
    let c = art.tables[t].entry[i]->Table_0 as int;
    lemma_child(art, t, i);
    assert(art.walk(t, i) == art.walk_slot(t, i) + art.walk(t, i + 1));
    assert(art.walk_slot(t, i) == art.walk(c, 1));
    assert(art.walk_above(c) == art.walk(t, i + 1) + art.walk_above(t));
    assert(art.walk_rest(c, 1) =~= art.walk_rest(t, i));
    assert(art.steps(t, i) == art.steps_slot(t, i) + art.steps(t, i + 1));
    assert(art.steps_slot(t, i) == 2 + art.steps(c, 1));
    assert(art.steps_above(c) == 1 + art.steps(t, i + 1) + art.steps_above(t));
}

/// Passing a slot that holds no table leaves the routes of the slots after
/// it to yield, and the route of the slot itself before them where it is
/// at home.
pub proof fn lemma_walk_on(art: Art, t: int, i: int)
    requires
        art.wf(),
        0 <= t < art.tables.len(),
        0 <= i < art.tables[t].entry.len(),
        !(art.tables[t].entry[i] is Table),
    ensures
        art.steps_rest(t, i + 1) + 1 == art.steps_rest(t, i),
        art.walk_rest(t, i) == art.walk_slot(t, i) + art.walk_rest(t, i + 1),
        art.walk_slot(t, i) == match art.tables[t].entry[i] {
            ArtEntry::Node(n) => if art.at_home(t, i, n as int) {
                seq![n]
            } else {
                Seq::empty()
            },
            _ => Seq::empty(),
        },
{
    assert(art.walk(t, i) == art.walk_slot(t, i) + art.walk(t, i + 1));
    assert(art.walk_rest(t, i) =~= art.walk_slot(t, i) + art.walk_rest(t, i + 1));
    assert(art.steps(t, i) == art.steps_slot(t, i) + art.steps(t, i + 1));
    assert(art.steps_slot(t, i) == 1);
}

/// Going up from a table that is done leaves the same routes to yield, in
/// one step.
pub proof fn lemma_walk_up(art: Art, t: int)
    requires
        art.wf(),
        0 < t < art.tables.len(),
    ensures
        art.tables[t].parent matches Some(p) && 0 <= p < t && art.walk_rest(
            p,
            art.tables[t].index as int + 1,
        ) == art.walk_rest(t, art.tables[t].entry.len() as int) && art.steps_rest(
            p,
            art.tables[t].index as int + 1,
        ) + 1 == art.steps_rest(t, art.tables[t].entry.len() as int),
{
    assert(art.table_ok(t));
    let p = art.tables[t].parent->Some_0;
    let end = art.tables[t].entry.len() as int;
    assert(art.walk(t, end) == Seq::<usize>::empty());
    assert(art.steps(t, end) == 0);
    assert(art.walk_above(t) == art.walk(p, art.tables[t].index as int + 1) + art.walk_above(p));
    assert(art.walk_rest(p, art.tables[t].index as int + 1) =~= art.walk_rest(t, end));
}

} // verus!
