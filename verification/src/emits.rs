//! Which routes a traversal yields: those that an exact lookup of their own
//! prefix finds, each of them once.

use vstd::prelude::*;
use crate::descent::{lemma_child, lemma_root, lemma_table};
use crate::heap::{heap_index, lemma_heap_index_up, lemma_subtree_row, row};
use crate::home::{lemma_holder_len, lemma_home};
use crate::model::Art;
use crate::placement::{lemma_reaches_find, lemma_same_slot};
use crate::prefix::same_prefix;
use crate::table::ArtEntry;

verus! {

impl Art {
    /// Whether the traversal yields route `n` at slot `i` of table `t`.
    pub open spec fn emits(self, t: int, i: int, n: usize) -> bool {
        &&& 0 <= t < self.tables.len()
        &&& 1 <= i < self.tables[t].entry.len()
        &&& self.tables[t].entry[i] == ArtEntry::Node(n)
        &&& n < self.routes.len()
        &&& self.at_home(t, i, n as int)
    }

    /// Whether table `t` lies below slot `j` of table `top`: it hangs
    /// there, or a table above it does.
    pub open spec fn hangs_below(self, t: int, top: int, j: int) -> bool
        decreases t,
    {
        match self.tables[t].parent {
            Some(p) => 0 <= p < t && ((p == top && self.tables[t].index == j) || self.hangs_below(
                p,
                top,
                j,
            )),
            None => false,
        }
    }

    /// Whether slot `i` of table `t` is slot `j` of table `top`, or lies in
    /// a table below that slot.
    pub open spec fn within(self, t: int, i: int, top: int, j: int) -> bool {
        (t == top && i == j) || self.hangs_below(t, top, j)
    }

    /// The slot in which the prefix of route `n` ends.
    pub open spec fn seat(self, n: usize) -> Option<(int, int)> {
        self.home(self.routes[n as int].octets, self.routes[n as int].len as int)
    }
}

/// A sequence put together from two holds what either holds.
pub proof fn lemma_concat_contains<A>(a: Seq<A>, b: Seq<A>, x: A)
    ensures
        (a + b).contains(x) <==> a.contains(x) || b.contains(x),
{
    if a.contains(x) {
        let i = choose|i: int| 0 <= i < a.len() && a[i] == x;
        assert((a + b)[i] == x);
    }
    if b.contains(x) {
        let i = choose|i: int| 0 <= i < b.len() && b[i] == x;
        assert((a + b)[a.len() + i] == x);
    }
    if (a + b).contains(x) {
        let i = choose|i: int| 0 <= i < (a + b).len() && (a + b)[i] == x;
        if i < a.len() {
            assert(a[i] == x);
        } else {
            assert(b[i - a.len()] == x);
        }
    }
}

/// What a slot yields, the slots of its table yield from any slot before
/// it on.
pub proof fn lemma_walk_has_slot(art: Art, t: int, from: int, i: int, n: usize)
    requires
        0 <= from <= i < art.tables[t].entry.len(),
        art.walk_slot(t, i).contains(n),
    ensures
        art.walk(t, from).contains(n),
    decreases i - from,
{
    lemma_concat_contains(art.walk_slot(t, from), art.walk(t, from + 1), n);
    if from < i {
        lemma_walk_has_slot(art, t, from + 1, i, n);
    }
}

/// What the slots of a table yield, the whole traversal yields.
pub proof fn lemma_walk_has_table(art: Art, t: int, n: usize)
    requires
        art.wf(),
        0 <= t < art.tables.len(),
        art.walk(t, 1).contains(n),
    ensures
        art.walk_all().contains(n),
    decreases t,
{
    assert(art.table_ok(t));
    match art.tables[t].parent {
        Some(p) => {
            lemma_table(art, p);
            let j = art.tables[t].index as int;
            assert(art.walk_slot(p, j) == art.walk(t, 1));
            lemma_walk_has_slot(art, p, 1, j, n);
            lemma_walk_has_table(art, p, n);
        },
        None => {},
    }
}

/// A route that a slot yields is part of the whole traversal.
pub proof fn lemma_emits_walk(art: Art, t: int, i: int, n: usize)
    requires
        art.wf(),
        art.emits(t, i, n),
    ensures
        art.walk_all().contains(n),
{
    assert(art.walk_slot(t, i) == seq![n]);
    assert(seq![n][0] == n);
    lemma_walk_has_slot(art, t, 1, i, n);
    lemma_walk_has_table(art, t, n);
}

/// What hangs below a table hangs below the slot in which that table
/// hangs.
pub proof fn lemma_hangs_trans(art: Art, t: int, c: int, j: int, top: int, k: int)
    requires
        art.wf(),
        0 <= t < art.tables.len(),
        0 <= c < art.tables.len(),
        art.hangs_below(t, c, j),
        art.tables[c].parent == Some(top),
        art.tables[c].index == k,
    ensures
        art.hangs_below(t, top, k),
    decreases t,
{
    assert(art.table_ok(t));
    assert(art.table_ok(c));
    let p = art.tables[t].parent->Some_0;
    if p == c && art.tables[t].index == j {
        assert(art.hangs_below(c, top, k));
    } else {
        lemma_hangs_trans(art, p, c, j, top, k);
    }
}

/// A table hangs below one slot of a table above it at most, and below no
/// slot of itself or of a later table.
pub proof fn lemma_hangs_once(art: Art, t: int, top: int, j: int, k: int)
    requires
        art.wf(),
        0 <= t < art.tables.len(),
        art.hangs_below(t, top, j),
    ensures
        top < t,
        art.hangs_below(t, top, k) ==> j == k,
    decreases t,
{
    assert(art.table_ok(t));
    let p = art.tables[t].parent->Some_0;
    if p == top && art.tables[t].index == j {
        if art.hangs_below(p, top, k) {
            lemma_hangs_once(art, p, top, k, j);
        }
    } else {
        lemma_hangs_once(art, p, top, j, k);
    }
}

/// A route that the slots of a table yield from slot `from` on is yielded
/// at a slot of the table from `from` on, or of a table below such a slot.
pub proof fn lemma_walk_witness(art: Art, t: int, from: int, n: usize) -> (w: (int, int, int))
    requires
        art.wf(),
        0 <= t < art.tables.len(),
        1 <= from,
        art.walk(t, from).contains(n),
    ensures
        from <= w.0 < art.tables[t].entry.len(),
        art.emits(w.1, w.2, n),
        art.within(w.1, w.2, t, w.0),
    decreases art.tables.len() - t, art.tables[t].entry.len() - from,
{
    lemma_concat_contains(art.walk_slot(t, from), art.walk(t, from + 1), n);
    lemma_child(art, t, from);
    if art.walk_slot(t, from).contains(n) {
        match art.tables[t].entry[from] {
            ArtEntry::Node(m) => {
                let s = art.walk_slot(t, from);
                let k = choose|k: int| 0 <= k < s.len() && s[k] == n;
                assert(s[k] == m);
                (from, t, from)
            },
            ArtEntry::Table(c) => {
                let below = lemma_walk_witness(art, c as int, 1, n);
                if below.1 == c {
                    assert(art.hangs_below(c as int, t, from));
                } else {
                    lemma_hangs_trans(art, below.1, c as int, below.0, t, from);
                }
                (from, below.1, below.2)
            },
            ArtEntry::Empty => {
                let s = art.walk_slot(t, from);
                assert(s.len() == 0);
                (from, t, from)
            },
        }
    } else {
        lemma_walk_witness(art, t, from + 1, n)
    }
}

/// The slot at which a route is yielded is the slot in which its prefix
/// ends, or slot 1 of the table that hangs there; an exact lookup of the
/// prefix finds the route.
pub proof fn lemma_emits_seat(art: Art, t: int, i: int, n: usize)
    requires
        art.wf(),
        art.inv(),
        art.emits(t, i, n),
    ensures
        art.seat(n) is Some,
        ({
            let (st, si) = art.seat(n)->Some_0;
            ||| (st == t && si == i)
            ||| (i == 1 && 0 <= st < art.tables.len() && 0 <= si < art.tables[st].entry.len()
                && art.tables[st].entry[si] == ArtEntry::Table(t as usize))
        }),
        art.lookup_exact(art.routes[n as int].octets, art.routes[n as int].len as int) == Some(n),
{
    let r = art.routes[n as int];
    let v = art.tables[t];
    assert(art.placed(t, i));
    assert(art.table_ok(t));
    lemma_table(art, t);
    lemma_root(art);
    lemma_heap_index_up(r.octets, v.offset as int, (r.len - v.offset) as nat);
    if i >= 2 {
        lemma_reaches_find(art, r.octets, r.len as int, t);
        assert(art.seat(n) == Some((t, i)));
    } else {
        assert(r.len == v.offset);
        match v.parent {
            Some(p) => {
                let j = v.index as int;
                let u = art.tables[p];
                lemma_table(art, p);
                lemma_child(art, p, j);
                let h = heap_index(r.octets, u.offset as int, (r.len - u.offset) as nat) as int;
                lemma_heap_index_up(r.octets, u.offset as int, (r.len - u.offset) as nat);
                lemma_subtree_row(h, j);
                lemma_fringe_row(j, u.bits);
                assert(h == j);
                if p != 0 {
                    lemma_reaches_find(art, r.octets, r.len as int, p);
                }
                assert(art.find(p, r.octets, r.len as int) == Some(p));
                assert(art.seat(n) == Some((p, j)));
            },
            None => {
                assert(art.seat(n) == Some((0int, 1int)));
            },
        }
    }
    lemma_home(art, r.octets, r.len as int);
}

/// A fringe slot lies in the row of the table's stride.
pub proof fn lemma_fringe_row(j: int, bits: nat)
    requires
        vstd::arithmetic::power2::pow2(bits) <= j < 2 * vstd::arithmetic::power2::pow2(bits),
    ensures
        row(j) == bits,
    decreases bits,
{
    if bits == 0 {
        vstd::arithmetic::power2::lemma2_to64();
    } else {
        vstd::arithmetic::power2::lemma_pow2_unfold(bits);
        vstd::arithmetic::power2::lemma_pow2_pos((bits - 1) as nat);
        lemma_fringe_row(j / 2, (bits - 1) as nat);
    }
}

/// A route that an exact lookup finds is yielded at the slot in which the
/// prefix ends, or at slot 1 of the table that hangs there.
pub proof fn lemma_exact_emits(art: Art, o: Seq<u8>, plen: int) -> (w: (int, int))
    requires
        art.wf(),
        art.inv(),
        0 <= plen,
        art.lookup_exact(o, plen) is Some,
    ensures
        art.emits(w.0, w.1, art.lookup_exact(o, plen)->Some_0),
        art.routes[art.lookup_exact(o, plen)->Some_0 as int].len == plen,
        art.home(o, plen) matches Some((t, i)) && (w == (t, i) || (w.1 == 1 && art.tables[t].entry[i]
            == ArtEntry::Table(w.0 as usize))),
{
    let n = art.lookup_exact(o, plen)->Some_0 as int;
    lemma_home(art, o, plen);
    let (t, i) = art.home(o, plen)->Some_0;
    let v = art.tables[t];
    let r = art.routes[n];
    lemma_child(art, t, i);
    lemma_table(art, t);
    lemma_root(art);
    lemma_holder_len(art, t, i);
    if i >= 2 {
        let h = heap_index(r.octets, v.offset as int, (r.len - v.offset) as nat) as int;
        lemma_heap_index_up(r.octets, v.offset as int, (r.len - v.offset) as nat);
        lemma_subtree_row(h, i);
        assert(h == i);
    } else {
        assert(art.table_ok(0));
    }
    match v.entry[i] {
        ArtEntry::Table(c) => {
            lemma_table(art, c as int);
            lemma_fringe_row(i, v.bits);
            (c as int, 1)
        },
        _ => (t, i),
    }
}

/// A route is yielded at one slot at most.
pub proof fn lemma_emits_once(art: Art, t1: int, i1: int, t2: int, i2: int, n: usize)
    requires
        art.wf(),
        art.inv(),
        art.emits(t1, i1, n),
        art.emits(t2, i2, n),
    ensures
        t1 == t2,
        i1 == i2,
{
    lemma_emits_seat(art, t1, i1, n);
    lemma_emits_seat(art, t2, i2, n);
}

/// A route that a slot yields is yielded at that slot, or at a slot of a
/// table below it.
pub proof fn lemma_slot_witness(art: Art, t: int, j: int, n: usize) -> (w: (int, int))
    requires
        art.wf(),
        0 <= t < art.tables.len(),
        1 <= j < art.tables[t].entry.len(),
        art.walk_slot(t, j).contains(n),
    ensures
        art.emits(w.0, w.1, n),
        art.within(w.0, w.1, t, j),
{
    lemma_child(art, t, j);
    let s = art.walk_slot(t, j);
    let k = choose|k: int| 0 <= k < s.len() && s[k] == n;
    match art.tables[t].entry[j] {
        ArtEntry::Node(m) => {
            assert(s[k] == m);
            (t, j)
        },
        ArtEntry::Table(c) => {
            let below = lemma_walk_witness(art, c as int, 1, n);
            if below.1 == c {
                assert(art.hangs_below(c as int, t, j));
            } else {
                lemma_hangs_trans(art, below.1, c as int, below.0, t, j);
            }
            (below.1, below.2)
        },
        ArtEntry::Empty => {
            assert(s.len() == 0);
            (t, j)
        },
    }
}

/// The slots of a table yield no route twice.
pub proof fn lemma_walk_distinct(art: Art, t: int, from: int)
    requires
        art.wf(),
        art.inv(),
        0 <= t < art.tables.len(),
        1 <= from,
    ensures
        art.walk(t, from).no_duplicates(),
    decreases art.tables.len() - t, art.tables[t].entry.len() - from,
{
    if from < art.tables[t].entry.len() {
        let a = art.walk_slot(t, from);
        let b = art.walk(t, from + 1);
        lemma_child(art, t, from);
        match art.tables[t].entry[from] {
            ArtEntry::Table(c) => {
                lemma_walk_distinct(art, c as int, 1);
            },
            _ => {},
        }
        lemma_walk_distinct(art, t, from + 1);
        assert forall|x: int, y: int| 0 <= x < a.len() && 0 <= y < b.len() implies a[x] != b[y] by {
            if a[x] == b[y] {
                let n = a[x];
                assert(a.contains(n));
                assert(b.contains(n));
                let wa = lemma_slot_witness(art, t, from, n);
                let wb = lemma_walk_witness(art, t, from + 1, n);
                lemma_emits_once(art, wa.0, wa.1, wb.1, wb.2, n);
                if art.hangs_below(wa.0, t, from) {
                    lemma_hangs_once(art, wa.0, t, from, wb.0);
                } else if art.hangs_below(wa.0, t, wb.0) {
                    lemma_hangs_once(art, wa.0, t, wb.0, from);
                }
            }
        }
        vstd::seq_lib::lemma_no_dup_in_concat(a, b);
    }
}

impl Art {
    /// Whether route `n` is the route that an exact lookup of its own
    /// prefix finds.
    pub open spec fn stored(self, n: usize) -> bool {
        n < self.routes.len() && self.lookup_exact(
            self.routes[n as int].octets,
            self.routes[n as int].len as int,
        ) == Some(n)
    }
}

/// The route that an exact lookup of a prefix finds is a route of that
/// prefix, and the route that an exact lookup of its own prefix finds.
pub proof fn lemma_found_stored(art: Art, o: Seq<u8>, plen: int)
    requires
        art.wf(),
        art.inv(),
        0 <= plen,
        art.lookup_exact(o, plen) is Some,
    ensures
        art.stored(art.lookup_exact(o, plen)->Some_0),
        same_prefix(
            o,
            plen,
            art.routes[art.lookup_exact(o, plen)->Some_0 as int].octets,
            art.routes[art.lookup_exact(o, plen)->Some_0 as int].len as int,
        ),
{
    let n = art.lookup_exact(o, plen)->Some_0;
    let r = art.routes[n as int];
    let w = lemma_exact_emits(art, o, plen);
    lemma_emits_seat(art, w.0, w.1, n);
    lemma_home(art, o, plen);
    lemma_home(art, r.octets, r.len as int);
    let (t, i) = art.home(o, plen)->Some_0;
    lemma_child(art, t, i);
    let (st, si) = art.seat(n)->Some_0;
    lemma_child(art, st, si);
    assert(art.seat(n) == art.home(o, plen));
    lemma_same_slot(art, o, plen, r.octets, r.len as int);
}

/// **The traversal yields the stored routes.** It yields a route exactly
/// when an exact lookup of the route's own prefix finds that route, and it
/// yields no route twice.
pub proof fn lemma_walk_stored(art: Art)
    requires
        art.wf(),
        art.inv(),
    ensures
        art.walk_all().no_duplicates(),
        forall|n: usize| #[trigger] art.walk_all().contains(n) <==> art.stored(n),
{
    lemma_walk_distinct(art, 0, 1);
    assert forall|n: usize| #[trigger] art.walk_all().contains(n) <==> art.stored(n) by {
        if art.walk_all().contains(n) {
            let w = lemma_walk_witness(art, 0, 1, n);
            lemma_emits_seat(art, w.1, w.2, n);
        }
        if art.stored(n) {
            let r = art.routes[n as int];
            let w = lemma_exact_emits(art, r.octets, r.len as int);
            lemma_emits_walk(art, w.0, w.1, n);
        }
    }
}

} // verus!
