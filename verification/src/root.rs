//! The routing table itself: the arena of tables, the arena of routes, and
//! the operations that descend through them.

use std::rc::Rc;
use vstd::prelude::*;
use crate::allot::art_allot;
use crate::descent::{lemma_child, lemma_graft_wf, lemma_level_below, lemma_root, lemma_table};
use crate::effect::{lemma_added, lemma_deleted, lemma_inserted};
use crate::emits::{lemma_found_stored, lemma_walk_stored};
use crate::empty::lemma_bare;
use crate::fresh::lemma_bare_fresh;
use crate::full::lemma_bare_full;
use crate::heap::lemma_fringe_bounds;
use crate::iter::ArtIter;
use crate::longest::lemma_lookup_longest;
use crate::model::{
    Art, Route, empty_table, lemma_offset_even, lemma_offset_grows, lemma_offset_step,
    lemma_with_entry_wf, offset_at, strides_ok,
};
use crate::prefix::{Prefix, same_prefix};
use crate::sound::lemma_lookup_sound;
use crate::table::{ArtEntry, ArtTable, art_bindex, art_findex};

verus! {

/// A route: a prefix and what the caller attached to it.
pub struct ArtNode<P, D> {
    /// The prefix of the route.
    pub prefix: P,
    /// What the caller attached to the route.
    pub data: Option<D>,
}

impl<P: Prefix + Copy, D> ArtNode<P, D> {
    /// A shared route for `prefix` with `data`.
    pub fn new(prefix: &P, data: Option<D>) -> (node: Rc<Self>)
        ensures
            node.prefix == *prefix,
            node.data == data,
    {
        Rc::new(Self { prefix: *prefix, data })
    }
}

/// `Rc::clone`: another handle to the same allocation, so to the same value.
#[verifier::external_body]
pub(crate) fn share<T>(rc: &Rc<T>) -> (other: Rc<T>)
    ensures
        other == *rc,
{
    Rc::clone(rc)
}

/// An allotment routing table over prefixes `P` with payloads `D`.
pub struct ArtRoot<P, D> {
    bits: Vec<u8>,
    levels: u32,
    alen: u8,
    tables: Vec<ArtTable>,
    nodes: Vec<Rc<ArtNode<P, D>>>,
}

/// The strides that a configuration of `levels` levels takes from `bits`:
/// the first `levels` of them, or all where there are fewer.
pub open spec fn strides_of(levels: u32, bits: Seq<u8>) -> Seq<nat> {
    Seq::new(
        if levels <= bits.len() {
            levels as nat
        } else {
            bits.len()
        },
        |l: int| bits[l] as nat,
    )
}

/// Whether a configuration makes a table: its strides can each have a table
/// and add up to `alen`.
pub open spec fn config_ok(levels: u32, bits: Seq<u8>, alen: u8) -> bool {
    let strides = strides_of(levels, bits);
    &&& strides_ok(strides)
    &&& offset_at(strides, strides.len()) == alen
}

impl<P: Prefix, D> View for ArtRoot<P, D> {
    type V = Art;

    closed spec fn view(&self) -> Art {
        Art {
            strides: strides_of(self.levels, self.bits@),
            tables: self.tables@.map_values(|t: ArtTable| t@),
            routes: self.nodes@.map_values(
                |n: Rc<ArtNode<P, D>>|
                    Route { len: n.prefix.len_spec() as nat, octets: n.prefix.octets_spec() },
            ),
        }
    }
}

impl<P: Prefix, D> ArtRoot<P, D> {
    /// The routes of the arena: an entry `Node(n)` names `nodes()[n]`.
    pub closed spec fn nodes(&self) -> Seq<Rc<ArtNode<P, D>>> {
        self.nodes@
    }

    /// Whether the stored address length and the fringe that each table
    /// caches are right.
    pub closed spec fn caches_ok(&self) -> bool {
        &&& self.alen == self@.alen()
        &&& forall|t: int| 0 <= t < self.tables@.len() ==> (#[trigger] self.tables@[t]).wf()
    }

    /// The tables form a tree that fits the configuration.
    pub open spec fn wf(&self) -> bool {
        &&& self@.wf()
        &&& self.caches_ok()
    }

    /// The table that entries name `Table(t)`.
    pub fn table(&self, t: usize) -> (at: &ArtTable)
        requires
            self.wf(),
            t < self@.tables.len(),
        ensures
            at@ == self@.tables[t as int],
            at.wf(),
    {
        &self.tables[t]
    }

    /// Replaces a slot that holds no table by an entry that names no table.
    pub(crate) fn put(&mut self, t: usize, i: u32, e: ArtEntry)
        requires
            old(self).wf(),
            t < old(self)@.tables.len(),
            i < old(self)@.tables[t as int].entry.len(),
            !(old(self)@.tables[t as int].entry[i as int] is Table),
            old(self)@.is_leaf(e),
        ensures
            final(self).wf(),
            final(self)@ == old(self)@.with_entry(t as int, i as int, e),
            final(self).nodes() == old(self).nodes(),
    {
        self.tables[t].set_entry(i, e);
        proof {
            assert(self@.tables =~= old(self)@.with_entry(t as int, i as int, e).tables);
            lemma_with_entry_wf(old(self)@, t as int, i as int, e);
        }
    }

    /// Hangs `table` in slot `j` of table `at`, which holds no table, and
    /// returns the name of the new table.
    pub(crate) fn hang(&mut self, at: usize, j: u32, table: ArtTable) -> (t: usize)
        requires
            old(self).wf(),
            at < old(self)@.tables.len(),
            old(self)@.tables[at as int].fringe() <= j < old(self)@.tables[at as int].entry.len(),
            !(old(self)@.tables[at as int].entry[j as int] is Table),
            old(self)@.tables[at as int].level + 1 < old(self)@.strides.len(),
            table.wf(),
            table@ == old(self)@.fresh_table(Some(at as int), j as nat).with_entry(
                1,
                old(self)@.tables[at as int].entry[j as int],
            ),
        ensures
            final(self).wf(),
            final(self)@ == old(self)@.graft(at as int, j as int),
            final(self).nodes() == old(self).nodes(),
            t == old(self)@.tables.len(),
    {
        let t: usize = self.tables.len();
        self.tables.push(table);
        let ghost total: usize = self.tables.len();
        self.tables[at].set_entry(j, ArtEntry::from_table(t));
        proof {
            assert(self@.tables =~= old(self)@.graft(at as int, j as int).tables);
            lemma_graft_wf(old(self)@, at as int, j as int);
        }
        t
    }

    /// Takes `node` into the arena of routes and returns its name there.
    pub fn add_node(&mut self, node: Rc<ArtNode<P, D>>) -> (n: usize)
        requires
            old(self).wf(),
            8 * node.prefix.octets_spec().len() >= old(self)@.alen(),
        ensures
            final(self).wf(),
            n == old(self).nodes().len(),
            final(self).nodes() == old(self).nodes().push(node),
            final(self)@.strides == old(self)@.strides,
            final(self)@.tables == old(self)@.tables,
            final(self)@.routes == old(self)@.routes.push(
                Route { len: node.prefix.len_spec() as nat, octets: node.prefix.octets_spec() },
            ),
            final(self)@.routes.len() <= usize::MAX,
    {
        let n: usize = self.nodes.len();
        self.nodes.push(node);
        let ghost total: usize = self.nodes.len();
        proof {
            let before = old(self)@;
            let after = self@;
            assert(after.routes =~= before.routes.push(
                Route { len: node.prefix.len_spec() as nat, octets: node.prefix.octets_spec() },
            ));
            assert forall|t: int| 0 <= t < after.tables.len() implies #[trigger] after.table_ok(t) by {
                assert(before.table_ok(t));
            }
            assert forall|m: int| 0 <= m < after.routes.len() implies #[trigger] after.route_ok(m) by {
                if m < before.routes.len() {
                    assert(before.route_ok(m));
                }
            }
            assert forall|t: int, i: int|
                0 <= t < after.tables.len() && 0 <= i < after.tables[t].entry.len() implies #[trigger] after.entry_ok(
                t,
                i,
            ) by {
                assert(before.entry_ok(t, i));
            }
        }
        n
    }

    /// The model's routes are the prefixes of the arena's routes.
    pub proof fn lemma_routes(&self)
        ensures
            self@.routes.len() == self.nodes().len(),
            forall|n: int|
                0 <= n < self.nodes().len() ==> (#[trigger] self@.routes[n]) == (Route {
                    len: self.nodes()[n].prefix.len_spec() as nat,
                    octets: self.nodes()[n].prefix.octets_spec(),
                }),
    {
    }
}

impl<P: Prefix + Copy, D> ArtRoot<P, D> {
    /// A table with `levels` levels whose strides are the first `levels`
    /// items of `bits`, for addresses of `alen` bits. It holds one empty
    /// table, the root, and no route.
    pub fn new(levels: u32, bits: Vec<u8>, alen: u8) -> (ar: Self)
        requires
            config_ok(levels, bits@, alen),
        ensures
            ar.wf(),
            ar@.strides == strides_of(levels, bits@),
            ar@.alen() == alen,
            ar@.tables == seq![empty_table(ar@.strides, 0, None, 0)],
            ar@.routes.len() == 0,
            ar.nodes().len() == 0,
            ar@.bare(),
            ar@.inv(),
            ar@.fresh(),
            ar@.full(),
            ar@.walk_all().len() == 0,
            forall|o: Seq<u8>, plen: int| (#[trigger] ar@.lookup_exact(o, plen)) is None,
            forall|o: Seq<u8>, plen: int| (#[trigger] ar@.lookup(o, plen)) is None,
    {
        let mut ar = ArtRoot { levels, bits, alen, tables: Vec::new(), nodes: Vec::new() };
        let ghost strides = strides_of(levels, ar.bits@);
        proof {
            assert(strides[0] == ar.bits@[0]);
            lemma_offset_grows(strides, 1, strides.len());
        }
        let root = ArtTable::build(0, ar.bits[0], 0, None, 0);
        ar.tables.push(root);
        proof {
            let art = ar@;
            assert(art.tables =~= seq![empty_table(art.strides, 0, None, 0)]);
            assert(art.routes.len() == 0);
            assert(art.table_ok(0));
            assert forall|t: int, i: int|
                0 <= t < art.tables.len() && 0 <= i < art.tables[t].entry.len() implies #[trigger] art.entry_ok(
                t,
                i,
            ) by {}
            lemma_bare(art);
            lemma_bare_full(art);
            lemma_bare_fresh(art);
        }
        ar
    }

    /// The table for IPv4: 32 bits in strides of 8, 4, 4, 4, 4, 4, 4.
    pub fn new_ipv4_table() -> (ar: Self)
        ensures
            ar.wf(),
            ar@.strides == seq![8nat, 4, 4, 4, 4, 4, 4],
            ar@.alen() == 32,
            ar@.tables == seq![empty_table(ar@.strides, 0, None, 0)],
            ar@.routes.len() == 0,
            ar.nodes().len() == 0,
            ar@.bare(),
            ar@.inv(),
            ar@.fresh(),
            ar@.full(),
            ar@.walk_all().len() == 0,
            forall|o: Seq<u8>, plen: int| (#[trigger] ar@.lookup_exact(o, plen)) is None,
            forall|o: Seq<u8>, plen: int| (#[trigger] ar@.lookup(o, plen)) is None,
    {
        let bits: Vec<u8> = vec![8u8, 4u8, 4u8, 4u8, 4u8, 4u8, 4u8];
        proof {
            let s = strides_of(7, bits@);
            assert(s =~= seq![8nat, 4, 4, 4, 4, 4, 4]);
            reveal_with_fuel(offset_at, 8);
        }
        ArtRoot::new(7, bits, 32)
    }

    /// The table for IPv6: 128 bits in 32 strides of 4.
    pub fn new_ipv6_table() -> (ar: Self)
        ensures
            ar.wf(),
            ar@.strides == Seq::new(32, |l: int| 4nat),
            ar@.alen() == 128,
            ar@.tables == seq![empty_table(ar@.strides, 0, None, 0)],
            ar@.routes.len() == 0,
            ar.nodes().len() == 0,
            ar@.bare(),
            ar@.inv(),
            ar@.fresh(),
            ar@.full(),
            ar@.walk_all().len() == 0,
            forall|o: Seq<u8>, plen: int| (#[trigger] ar@.lookup_exact(o, plen)) is None,
            forall|o: Seq<u8>, plen: int| (#[trigger] ar@.lookup(o, plen)) is None,
    {
        let bits: Vec<u8> = vec![4u8; 32];
        proof {
            let s = strides_of(32, bits@);
            assert(s =~= Seq::new(32, |l: int| 4nat));
            assert forall|l: int| 0 <= l < s.len() implies 1 <= #[trigger] s[l] <= 30 && offset_at(
                s,
                l as nat,
            ) % 8 + s[l] <= 32 by {
                lemma_offset_even(s, 4, l as nat);
            }
            lemma_offset_even(s, 4, 32);
        }
        ArtRoot::new(32, bits, 128)
    }

    /// Whether `prefix` has an octet for every bit of an address.
    pub open spec fn fits(&self, prefix: &P) -> bool {
        8 * prefix.octets_spec().len() >= self@.alen()
    }

    /// Whether `prefix` has the octets that every table of the root may
    /// ask for.
    pub fn accepts(&self, prefix: &P) -> (ok: bool)
        requires
            self.wf(),
        ensures
            ok == self.fits(prefix),
    {
        let octets = prefix.to_octets();
        let needed: usize = (self.alen as usize + 7) / 8;
        octets.len() >= needed
    }

    /// The route that `found` names, shared.
    pub(crate) fn node(&self, found: usize) -> (node: Rc<ArtNode<P, D>>)
        requires
            found < self.nodes().len(),
        ensures
            node == self.nodes()[found as int],
    {
        share(&self.nodes[found])
    }

    /// The result of a lookup that the model answers with `found`.
    pub open spec fn answer(&self, found: Option<usize>) -> Option<Rc<ArtNode<P, D>>> {
        match found {
            Some(n) => Some(self.nodes()[n as int]),
            None => None,
        }
    }

    /// Inserts the entry `an` for `prefix`: hangs a table wherever the
    /// path of the prefix has none yet, and puts `an` in the slot where the
    /// prefix ends. A prefix longer than the address is ignored.
    pub fn insert(&mut self, an: &ArtEntry, prefix: &P)
        requires
            old(self).wf(),
            old(self).fits(prefix),
            old(self)@.is_leaf(*an),
        ensures
            final(self).wf(),
            final(self)@ == old(self)@.insert(*an, prefix.octets_spec(), prefix.len_spec() as int),
            final(self).nodes() == old(self).nodes(),
            final(self)@.strides == old(self)@.strides,
            final(self)@.routes == old(self)@.routes,
            old(self)@.inv() && old(self)@.names(*an, prefix.octets_spec(), prefix.len_spec() as int)
                && prefix.len_spec() <= old(self)@.alen() ==> old(self)@.with_prefix(
                final(self)@,
                prefix.octets_spec(),
                prefix.len_spec() as int,
                an->Node_0,
            ),
    {
        let plen: u8 = prefix.prefix_len();
        if plen > self.alen {
            return ;
        }
        let mut at: usize = 0;
        let ghost o = prefix.octets_spec();
        proof {
            lemma_table(self@, 0);
            lemma_root(self@);
        }

        if plen == 0 {
            self.put(at, 1, *an);
            proof {
                lemma_inserted(old(self)@, self@, *an, o, plen as int);
            }
            return ;
        }
        while plen > self.table(at).offset() + self.table(at).bits()
            invariant
                self.wf(),
                at < self@.tables.len(),
                0 < plen <= self@.alen(),
                self@.strides == old(self)@.strides,
                self@.routes == old(self)@.routes,
                self.nodes() == old(self).nodes(),
                self.fits(prefix),
                o == prefix.octets_spec(),
                self@.tables[at as int].offset < plen,
                self@.grow(at as int, o, plen as int) == old(self)@.grow(0, o, plen as int),
            decreases self@.strides.len() - self@.tables[at as int].level,
        {
            let ghost before = self@;
            proof {
                lemma_table(before, at as int);
            }
            let j: u32 = art_findex(self.table(at), prefix).unwrap();
            proof {
                lemma_child(before, at as int, j as int);
                lemma_level_below(before, at as int, plen as int);
            }

            let entry = self.table(at).get_entry(j);
            match entry {
                ArtEntry::Table(table) => {
                    at = table;
                },
                ArtEntry::Node(node) => {
                    let mut table = ArtTable::new(self, Some(at), j);
                    table.set_default(ArtEntry::from_node(node));
                    at = self.hang(at, j, table);
                },
                ArtEntry::Empty => {
                    let table = ArtTable::new(self, Some(at), j);
                    proof {
                        lemma_fringe_bounds(table@.bits);
                        assert(table@.entry =~= table@.with_entry(1, ArtEntry::Empty).entry);
                    }
                    at = self.hang(at, j, table);
                },
            }
        }

        proof {
            lemma_table(self@, at as int);
        }
        let i: u32 = art_bindex(self.table(at), prefix, plen).unwrap();
        self.table_insert(at, i, *an);
        proof {
            lemma_inserted(old(self)@, self@, *an, o, plen as int);
        }
    }

    /// Puts `an` in slot `i` of table `at`.
    fn table_insert(&mut self, at: usize, i: u32, an: ArtEntry)
        requires
            old(self).wf(),
            at < old(self)@.tables.len(),
            1 <= i < old(self)@.tables[at as int].entry.len(),
            old(self)@.is_leaf(an),
        ensures
            final(self).wf(),
            final(self)@ == old(self)@.place(at as int, i as int, an),
            final(self).nodes() == old(self).nodes(),
            final(self)@.strides == old(self)@.strides,
            final(self)@.routes == old(self)@.routes,
    {
        let mut prev = self.table(at).get_entry(i);
        proof {
            lemma_child(self@, at as int, i as int);
        }

        if ArtEntry::check_duplicate(&prev, &an) {
            return ;
        }
        // A route that does not end at the fringe is handed down to every
        // slot below it that it covers.

        if i < self.table(at).minfringe() {
            if let ArtEntry::Table(table) = prev {
                prev = self.table(table).get_default();
            }
            art_allot(self, at, i, prev, &an);
        } else if let ArtEntry::Table(table) = prev {
            self.put(table, 1, an);
        } else {
            self.put(at, i, an);
        }
    }

    /// The route with the longest prefix that covers `prefix`, as far as
    /// the slots on the path of `prefix` tell.
    pub fn lookup(&self, prefix: &P) -> (found: Option<Rc<ArtNode<P, D>>>)
        requires
            self.wf(),
            self.fits(prefix),
        ensures
            found == self.answer(self@.lookup(prefix.octets_spec(), prefix.len_spec() as int)),
            self@.lookup(prefix.octets_spec(), prefix.len_spec() as int) matches Some(n) ==> n
                < self.nodes().len(),
            self@.inv() && self@.fresh() ==> (self@.lookup(
                prefix.octets_spec(),
                prefix.len_spec() as int,
            ) matches Some(n) ==> self@.matches(
                n,
                prefix.octets_spec(),
                -1,
                prefix.len_spec() as int,
            )),
            self@.inv() && self@.full() ==> self@.longest(
                prefix.octets_spec(),
                -1,
                prefix.len_spec() as int,
                self@.lookup(prefix.octets_spec(), prefix.len_spec() as int),
            ),
    {
        let plen: u8 = prefix.prefix_len();
        let ghost o = prefix.octets_spec();
        let ghost art = self@;
        let mut at: usize = 0;
        let mut default = self.table(at).get_default();
        proof {
            lemma_table(art, 0);
            lemma_root(art);
            self.lemma_routes();
            if art.inv() && art.fresh() {
                lemma_lookup_sound(art, o, plen as int);
            }
            if art.inv() && art.full() {
                lemma_lookup_longest(art, o, plen as int);
            }
        }

        while plen > self.table(at).offset() + self.table(at).bits()
            invariant
                self.wf(),
                art == self@,
                at < art.tables.len(),
                art.tables[at as int].offset <= plen,
                o == prefix.octets_spec(),
                plen == prefix.len_spec(),
                self.fits(prefix),
                art.is_leaf(default),
                art.routes.len() == self.nodes().len(),
                art.lpm(at as int, default, o, plen as int) == art.lookup(o, plen as int),
                art.inv() && art.fresh() ==> (art.lookup(o, plen as int) matches Some(n)
                    ==> art.matches(n, o, -1, plen as int)),
                art.inv() && art.full() ==> art.longest(o, -1, plen as int, art.lookup(o, plen as int)),
            decreases art.tables.len() - at,
        {
            proof {
                lemma_table(art, at as int);
            }
            let j: u32 = art_findex(self.table(at), prefix).unwrap();
            proof {
                lemma_child(art, at as int, j as int);
            }
            let entry = self.table(at).get_entry(j);

            match entry {
                ArtEntry::Table(table) => {
                    at = table;
                    if self.table(at).has_default() {
                        default = self.table(at).get_default();
                    }
                },
                ArtEntry::Node(node) => {
                    return Some(self.node(node));
                },
                ArtEntry::Empty => {
                    if let ArtEntry::Node(node) = default {
                        return Some(self.node(node));
                    } else {
                        return None;
                    }
                },
            }
        }

        proof {
            lemma_table(art, at as int);
        }
        let i: u32 = art_bindex(self.table(at), prefix, plen).unwrap();
        proof {
            lemma_child(art, at as int, i as int);
        }
        let entry = self.table(at).get_entry(i);

        match entry {
            ArtEntry::Node(node) => {
                return Some(self.node(node));
            },
            ArtEntry::Table(table) => {
                if let ArtEntry::Node(node) = self.table(table).get_default() {
                    return Some(self.node(node));
                }
            },
            ArtEntry::Empty => {},
        }
        if let ArtEntry::Node(node) = default {
            return Some(self.node(node));
        }
        None
    }

    /// The table in which `prefix` ends, where the tables on its path
    /// exist.
    fn descend(&self, prefix: &P) -> (end: Option<usize>)
        requires
            self.wf(),
            self.fits(prefix),
        ensures
            match end {
                Some(at) => self@.find(0, prefix.octets_spec(), prefix.len_spec() as int) == Some(
                    at as int,
                ) && at < self@.tables.len() && self@.tables[at as int].offset <= prefix.len_spec()
                    <= self@.tables[at as int].offset + self@.tables[at as int].bits,
                None => self@.find(0, prefix.octets_spec(), prefix.len_spec() as int) is None,
            },
    {
        let plen: u8 = prefix.prefix_len();
        let ghost o = prefix.octets_spec();
        let ghost art = self@;
        let mut at: usize = 0;
        proof {
            lemma_root(art);
        }
        while plen > self.table(at).offset() + self.table(at).bits()
            invariant
                self.wf(),
                art == self@,
                at < art.tables.len(),
                art.tables[at as int].offset <= plen,
                o == prefix.octets_spec(),
                plen == prefix.len_spec(),
                self.fits(prefix),
                art.find(at as int, o, plen as int) == art.find(0, o, plen as int),
            decreases art.tables.len() - at,
        {
            proof {
                lemma_table(art, at as int);
            }
            let j: u32 = art_findex(self.table(at), prefix).unwrap();
            proof {
                lemma_child(art, at as int, j as int);
            }
            let entry = self.table(at).get_entry(j);

            match entry {
                ArtEntry::Table(table) => {
                    at = table;
                },
                ArtEntry::Node(_) | ArtEntry::Empty => {
                    return None;
                },
            }
        }
        Some(at)
    }

    /// The route that was inserted for exactly `prefix`, if the table
    /// holds one.
    pub fn lookup_exact(&self, prefix: &P) -> (found: Option<Rc<ArtNode<P, D>>>)
        requires
            self.wf(),
            self.fits(prefix),
        ensures
            found == self.answer(
                self@.lookup_exact(prefix.octets_spec(), prefix.len_spec() as int),
            ),
            self@.lookup_exact(prefix.octets_spec(), prefix.len_spec() as int) matches Some(n) ==> n
                < self.nodes().len(),
            self@.inv() ==> (self@.lookup_exact(
                prefix.octets_spec(),
                prefix.len_spec() as int,
            ) matches Some(n) ==> self@.stored(n) && same_prefix(
                prefix.octets_spec(),
                prefix.len_spec() as int,
                self@.routes[n as int].octets,
                self@.routes[n as int].len as int,
            )),
    {
        proof {
            if self@.inv() && self@.lookup_exact(
                prefix.octets_spec(),
                prefix.len_spec() as int,
            ) is Some {
                lemma_found_stored(self@, prefix.octets_spec(), prefix.len_spec() as int);
            }
        }
        let at: usize = match self.descend(prefix) {
            Some(at) => at,
            None => { return None; },
        };
        proof {
            lemma_table(self@, at as int);
        }
        let i: u32 = art_bindex(self.table(at), prefix, prefix.prefix_len()).unwrap();
        proof {
            lemma_child(self@, at as int, i as int);
            self.lemma_routes();
        }
        let entry = self.table(at).get_entry(i);

        match entry {
            ArtEntry::Node(node) => {
                if self.nodes[node].prefix.prefix_len() == prefix.prefix_len() {
                    return Some(self.node(node));
                }
            },
            ArtEntry::Table(table) => {
                if let ArtEntry::Node(node) = self.table(table).get_default() {
                    if self.nodes[node].prefix.prefix_len() == prefix.prefix_len() {
                        return Some(self.node(node));
                    }
                }
            },
            ArtEntry::Empty => {},
        }
        None
    }

    /// Deletes the route of `prefix`: clears the slot where the prefix
    /// ends, if the tables on its path exist. A prefix longer than the
    /// address is ignored.
    pub fn delete(&mut self, prefix: &P)
        requires
            old(self).wf(),
            old(self).fits(prefix),
        ensures
            final(self).wf(),
            final(self)@ == old(self)@.delete(prefix.octets_spec(), prefix.len_spec() as int),
            final(self).nodes() == old(self).nodes(),
            final(self)@.strides == old(self)@.strides,
            final(self)@.routes == old(self)@.routes,
            old(self)@.inv() ==> old(self)@.without_prefix(
                final(self)@,
                prefix.octets_spec(),
                prefix.len_spec() as int,
            ),
    {
        proof {
            lemma_deleted(
                self@,
                self@.delete(prefix.octets_spec(), prefix.len_spec() as int),
                prefix.octets_spec(),
                prefix.len_spec() as int,
            );
        }
        if prefix.prefix_len() > self.alen {
            return ;
        }
        let at: usize = match self.descend(prefix) {
            Some(at) => at,
            None => { return ; },
        };
        proof {
            lemma_table(self@, at as int);
        }
        let i: u32 = art_bindex(self.table(at), prefix, prefix.prefix_len()).unwrap();
        proof {
            lemma_child(self@, at as int, i as int);
            lemma_child(self@, at as int, (i / 2) as int);
        }
        let mut prev = self.table(at).get_entry(i);

        proof {
            assert(i >> 1 == i / 2) by (bit_vector);
        }
        let next = if (i >> 1) > 1 {
            self.table(at).get_entry(i >> 1)
        } else {
            ArtEntry::none()
        };

        if i < self.table(at).minfringe() {
            if let ArtEntry::Table(table) = prev {
                prev = self.table(table).get_default();
            }
            art_allot(self, at, i, prev, &next);
        } else {
            match prev {
                ArtEntry::Table(table) => {
                    if self.table(table).has_default() {
                        self.put(table, 1, ArtEntry::none());
                    }
                },
                ArtEntry::Node(_) => {
                    self.put(at, i, ArtEntry::none());
                },
                ArtEntry::Empty => {},
            }
        }
    }

    /// A traversal of all routes, which starts at the root table.
    pub fn iter(&self) -> (it: ArtIter<'_, P, D>)
        requires
            self.wf(),
        ensures
            it.wf(),
            it.root() == self,
            it.rest() == self@.walk_all(),
            self@.inv() ==> it.rest().no_duplicates() && forall|n: usize| #[trigger]
                it.rest().contains(n) <==> self@.stored(n),
    {
        proof {
            if self@.inv() {
                lemma_walk_stored(self@);
            }
        }
        ArtIter::start(self)
    }

    /// Adds a route for `prefix` with `data`.
    pub fn route_ipv4_add(&mut self, prefix: P, data: D)
        requires
            old(self).wf(),
            old(self).fits(&prefix),
        ensures
            final(self).wf(),
            final(self).nodes().len() == old(self).nodes().len() + 1,
            final(self).nodes().drop_last() == old(self).nodes(),
            final(self).nodes().last().prefix == prefix,
            final(self).nodes().last().data == Some(data),
            final(self)@ == old(self)@.add(prefix.octets_spec(), prefix.len_spec() as nat),
            final(self)@.strides == old(self)@.strides,
            final(self)@.routes == old(self)@.routes.push(
                Route { len: prefix.len_spec() as nat, octets: prefix.octets_spec() },
            ),
            old(self)@.routes.len() < usize::MAX,
            old(self)@.inv() && prefix.len_spec() <= old(self)@.alen() ==> old(self)@.with_prefix(
                final(self)@,
                prefix.octets_spec(),
                prefix.len_spec() as int,
                old(self).nodes().len() as usize,
            ),
    {
        let node = ArtNode::new(&prefix, Some(data));
        proof {
            self.lemma_routes();
        }
        let n: usize = self.add_node(node);
        self.insert(&ArtEntry::from_node(n), &prefix);
        proof {
            assert(self.nodes().drop_last() =~= old(self).nodes());
            lemma_added(old(self)@, self@, prefix.octets_spec(), prefix.len_spec() as nat);
        }
    }

    /// Deletes the route of `prefix`.
    pub fn route_ipv4_delete(&mut self, prefix: P)
        requires
            old(self).wf(),
            old(self).fits(&prefix),
        ensures
            final(self).wf(),
            final(self)@ == old(self)@.delete(prefix.octets_spec(), prefix.len_spec() as int),
            final(self).nodes() == old(self).nodes(),
            final(self)@.strides == old(self)@.strides,
            final(self)@.routes == old(self)@.routes,
            old(self)@.inv() ==> old(self)@.without_prefix(
                final(self)@,
                prefix.octets_spec(),
                prefix.len_spec() as int,
            ),
    {
        self.delete(&prefix);
    }

    /// The route with the longest prefix that covers `prefix`.
    pub fn route_ipv4_lookup(&self, prefix: P) -> (found: Option<Rc<ArtNode<P, D>>>)
        requires
            self.wf(),
            self.fits(&prefix),
        ensures
            found == self.answer(self@.lookup(prefix.octets_spec(), prefix.len_spec() as int)),
            self@.lookup(prefix.octets_spec(), prefix.len_spec() as int) matches Some(n) ==> n
                < self.nodes().len(),
            self@.inv() && self@.fresh() ==> (self@.lookup(
                prefix.octets_spec(),
                prefix.len_spec() as int,
            ) matches Some(n) ==> self@.matches(
                n,
                prefix.octets_spec(),
                -1,
                prefix.len_spec() as int,
            )),
            self@.inv() && self@.full() ==> self@.longest(
                prefix.octets_spec(),
                -1,
                prefix.len_spec() as int,
                self@.lookup(prefix.octets_spec(), prefix.len_spec() as int),
            ),
    {
        self.lookup(&prefix)
    }

    /// The route that was inserted for exactly `prefix`.
    pub fn route_ipv4_lookup_exact(&self, prefix: P) -> (found: Option<Rc<ArtNode<P, D>>>)
        requires
            self.wf(),
            self.fits(&prefix),
        ensures
            found == self.answer(
                self@.lookup_exact(prefix.octets_spec(), prefix.len_spec() as int),
            ),
            self@.lookup_exact(prefix.octets_spec(), prefix.len_spec() as int) matches Some(n) ==> n
                < self.nodes().len(),
            self@.inv() ==> (self@.lookup_exact(
                prefix.octets_spec(),
                prefix.len_spec() as int,
            ) matches Some(n) ==> self@.stored(n) && same_prefix(
                prefix.octets_spec(),
                prefix.len_spec() as int,
                self@.routes[n as int].octets,
                self@.routes[n as int].len as int,
            )),
    {
        self.lookup_exact(&prefix)
    }

    /// The root table.
    pub fn root(&self) -> (at: &ArtTable)
        requires
            self.wf(),
        ensures
            at@ == self@.tables[0],
            at.wf(),
    {
        &self.tables[0]
    }
}

impl ArtTable {
    /// A table with all slots empty, for the root of `root` or to hang in
    /// slot `j` of its table `parent`.
    pub fn new<P: Prefix, D>(root: &ArtRoot<P, D>, parent: Option<usize>, j: u32) -> (table: ArtTable)
        requires
            strides_ok(root@.strides),
            parent matches Some(p) ==> root.wf() && p < root@.tables.len() && root@.tables[p as int].level
                + 1 < root@.strides.len(),
        ensures
            table.wf(),
            table@ == root@.fresh_table(
                match parent {
                    Some(p) => Some(p as int),
                    None => None,
                },
                j as nat,
            ),
    {
        let ghost strides = root@.strides;
        let mut level: u32 = 0;
        let mut offset: u8 = 0;
        if let Some(p) = parent {
            proof {
                assert(root@.table_ok(p as int));
                lemma_offset_step(strides, root@.tables[p as int].level);
            }
            offset = root.tables[p].offset() + root.tables[p].bits();
            level = root.tables[p].level() + 1;
        }
        proof {
            lemma_offset_step(strides, level as nat);
            lemma_offset_grows(strides, (level + 1) as nat, strides.len());
            assert(strides[level as int] == root.bits@[level as int]);
        }
        ArtTable::build(level, root.bits[level as usize], offset, parent, j)
    }
}

} // verus!
