//! One allotment table: a heap-indexed array of entries that covers one
//! stride of the address.

use vstd::prelude::*;
use vstd::arithmetic::power2::pow2;
use crate::field::{
    field_bit, field_matches, lemma_bit_place, lemma_field_four, lemma_field_heap_index,
    lemma_field_one, lemma_field_three, lemma_field_two,
};
use crate::heap::{heap_index, lemma_fringe_bounds, lemma_heap_index_row, lemma_pow2_grows};
use crate::prefix::{Prefix, bit_at};

verus! {

/// What a slot of a table holds. A table and a route are named by their
/// place in the arenas of the root that owns them, and two entries are the
/// same entry exactly when they name the same thing.
#[derive(Clone, Copy, Debug, PartialEq, Eq, Structural)]
pub enum ArtEntry {
    /// A child table: the descent goes on there.
    Table(usize),
    /// A route.
    Node(usize),
    /// Neither.
    Empty,
}

impl ArtEntry {
    /// The empty entry.
    pub fn none() -> (e: ArtEntry)
        ensures
            e == ArtEntry::Empty,
    {
        ArtEntry::Empty
    }

    /// The entry that names the route `node`.
    pub fn from_node(node: usize) -> (e: ArtEntry)
        ensures
            e == ArtEntry::Node(node),
    {
        ArtEntry::Node(node)
    }

    /// The entry that names the table `table`.
    pub fn from_table(table: usize) -> (e: ArtEntry)
        ensures
            e == ArtEntry::Table(table),
    {
        ArtEntry::Table(table)
    }

    /// Whether two entries are the same entry.
    pub fn check_duplicate(prev: &ArtEntry, new: &ArtEntry) -> (same: bool)
        ensures
            same == (*prev == *new),
    {
        *prev == *new
    }
}

/// The mathematical content of a table.
pub struct TableView {
    /// Depth below the root, which has level 0.
    pub level: nat,
    /// Width of the stride that the table covers.
    pub bits: nat,
    /// Number of address bits consumed above the table.
    pub offset: nat,
    /// The slot that the table occupies in its parent; 0 at the root.
    pub index: nat,
    /// The parent table; none at the root.
    pub parent: Option<int>,
    /// The slots: `2 * fringe()` of them, slot 0 unused.
    pub entry: Seq<ArtEntry>,
}

impl TableView {
    /// The first fringe slot, which is also the number of fringe slots.
    pub open spec fn fringe(self) -> nat {
        pow2(self.bits)
    }

    /// The table's own shape: a stride that the index arithmetic can
    /// extract, and one slot for every heap index of that stride.
    pub open spec fn wf(self) -> bool {
        &&& 1 <= self.bits <= 30
        &&& self.offset + self.bits <= 255
        &&& self.offset % 8 + self.bits <= 32
        &&& self.entry.len() == 2 * self.fringe()
    }

    /// The entry of slot 1, which stands for the prefix that leads here.
    pub open spec fn default(self) -> ArtEntry {
        self.entry[1]
    }

    /// The table with slot `i` replaced.
    pub open spec fn with_entry(self, i: int, e: ArtEntry) -> TableView {
        TableView { entry: self.entry.update(i, e), ..self }
    }

    /// The base index of the prefix `(o, plen)` in this table: defined when
    /// the prefix ends within the table's stride, and then the heap index of
    /// the bits that the prefix has in the stride.
    pub open spec fn slot(self, o: Seq<u8>, plen: int) -> Option<nat> {
        if self.offset <= plen <= self.offset + self.bits {
            Some(heap_index(o, self.offset as int, (plen - self.offset) as nat))
        } else {
            None
        }
    }

    /// The fringe slot through which the descent along `o` leaves the table.
    pub open spec fn fringe_slot(self, o: Seq<u8>) -> nat {
        heap_index(o, self.offset as int, self.bits)
    }
}

/// One table of the trie.
pub struct ArtTable {
    minfringe: u32,
    level: u32,
    index: u32,
    bits: u8,
    offset: u8,
    parent: Option<usize>,
    entry: Vec<ArtEntry>,
}

impl View for ArtTable {
    type V = TableView;

    closed spec fn view(&self) -> TableView {
        TableView {
            level: self.level as nat,
            bits: self.bits as nat,
            offset: self.offset as nat,
            index: self.index as nat,
            parent: match self.parent {
                Some(p) => Some(p as int),
                None => None,
            },
            entry: self.entry@,
        }
    }
}

impl ArtTable {
    /// The cached fringe is the fringe of the table's stride.
    pub closed spec fn fringe_ok(&self) -> bool {
        self.minfringe == self@.fringe()
    }

    /// The table has the shape of its stride.
    pub open spec fn wf(&self) -> bool {
        &&& self@.wf()
        &&& self.fringe_ok()
    }

    /// A table with all slots empty.
    pub(crate) fn build(level: u32, bits: u8, offset: u8, parent: Option<usize>, index: u32) -> (t:
        ArtTable)
        requires
            1 <= bits <= 30,
            offset + bits <= 255,
            offset % 8 + bits <= 32,
        ensures
            t.wf(),
            t@.level == level,
            t@.bits == bits,
            t@.offset == offset,
            t@.index == index,
            t@.parent == match parent {
                Some(p) => Some(p as int),
                None => None,
            },
            t@.entry == Seq::new(2 * pow2(bits as nat), |i: int| ArtEntry::Empty),
    {
        proof {
            lemma_fringe_bounds(bits as nat);
        }
        let minfringe: u32 = 1u32 << (bits as u32);
        let size: u32 = minfringe << 1u32;
        proof {
            assert(size == 2 * minfringe) by (bit_vector)
                requires
                    size == minfringe << 1u32,
                    minfringe <= 0x4000_0000u32,
            ;
        }
        let entry: Vec<ArtEntry> = vec![ArtEntry::Empty; size as usize];
        proof {
            assert(entry@ =~= Seq::new(2 * pow2(bits as nat), |i: int| ArtEntry::Empty));
        }
        ArtTable { minfringe, level, index, bits, offset, parent, entry }
    }

    /// The entry of slot `i`.
    pub fn get_entry(&self, i: u32) -> (e: ArtEntry)
        requires
            i < self@.entry.len(),
        ensures
            e == self@.entry[i as int],
    {
        self.entry[i as usize]
    }

    /// Replaces the entry of slot `i`.
    pub fn set_entry(&mut self, i: u32, an: ArtEntry)
        requires
            i < old(self)@.entry.len(),
        ensures
            final(self)@ == old(self)@.with_entry(i as int, an),
            old(self).wf() ==> final(self).wf(),
    {
        self.entry[i as usize] = an;
    }

    /// Whether slot 1 holds a route.
    pub fn has_default(&self) -> (b: bool)
        requires
            self.wf(),
        ensures
            b == (self@.default() is Node),
    {
        proof {
            lemma_fringe_bounds(self.bits as nat);
        }
        match self.entry[1] {
            ArtEntry::Node(_) => true,
            _ => false,
        }
    }

    /// The entry of slot 1.
    pub fn get_default(&self) -> (e: ArtEntry)
        requires
            self.wf(),
        ensures
            e == self@.default(),
    {
        proof {
            lemma_fringe_bounds(self.bits as nat);
        }
        self.entry[1]
    }

    /// Replaces the entry of slot 1.
    pub fn set_default(&mut self, an: ArtEntry)
        requires
            old(self).wf(),
        ensures
            final(self)@ == old(self)@.with_entry(1, an),
            final(self).wf(),
    {
        proof {
            lemma_fringe_bounds(self.bits as nat);
        }
        self.entry[1] = an;
    }

    /// The first fringe slot.
    pub fn minfringe(&self) -> (m: u32)
        requires
            self.wf(),
        ensures
            m == self@.fringe(),
            2 <= m <= 0x4000_0000,
    {
        proof {
            lemma_fringe_bounds(self.bits as nat);
        }
        self.minfringe
    }

    /// The number of slots, slot 0 included.
    pub fn slots(&self) -> (n: u32)
        requires
            self.wf(),
        ensures
            n == self@.entry.len(),
            n == 2 * self@.fringe(),
    {
        let m: u32 = self.minfringe();
        proof {
            assert((m << 1u32) == 2 * m) by (bit_vector)
                requires
                    m <= 0x4000_0000u32,
            ;
        }
        m << 1
    }

    /// Depth below the root.
    pub fn level(&self) -> (l: u32)
        ensures
            l == self@.level,
    {
        self.level
    }

    /// The slot that the table occupies in its parent.
    pub fn index(&self) -> (i: u32)
        ensures
            i == self@.index,
    {
        self.index
    }

    /// Width of the table's stride.
    pub fn bits(&self) -> (b: u8)
        ensures
            b == self@.bits,
    {
        self.bits
    }

    /// Number of address bits consumed above the table.
    pub fn offset(&self) -> (o: u8)
        ensures
            o == self@.offset,
    {
        self.offset
    }

    /// The parent table, if the table is not the root.
    pub fn parent(&self) -> (p: Option<usize>)
        ensures
            match p {
                Some(q) => self@.parent == Some(q as int),
                None => self@.parent is None,
            },
    {
        self.parent
    }
}

/// The `bits` bits of `addr` that start at bit `offset`, right-aligned.
fn art_field(addr: &Vec<u8>, offset: u8, bits: u8) -> (k: u32)
    requires
        1 <= bits <= 30,
        offset % 8 + bits <= 32,
        offset + bits <= 8 * addr@.len(),
    ensures
        k < (1u32 << (bits as u32)),
        field_matches(addr@, offset as int, bits as u32, k),
{
    // The first octet that holds bits of the field.
    let first: usize = (offset / 8) as usize;

    // The field covers the bits from `boff` to `bend` of that octet and
    // those that follow it.
    let boff: u32 = (offset % 8) as u32;
    let bits: u32 = bits as u32;
    let bend: u32 = bits + boff;
    let ghost o = addr@;
    let ghost off = offset as int;

    let mut k: u32;
    if bend > 24 {
        let a0: u32 = addr[first] as u32;
        let a1: u32 = addr[first + 1] as u32;
        let a2: u32 = addr[first + 2] as u32;
        let a3: u32 = addr[first + 3] as u32;
        proof {
            lemma_field_four(a0, a1, a2, a3, boff, bits, 0);
        }
        k = (a0 & ((1u32 << (8 - boff)) - 1)) << (bend - 8);
        k = k | (a1 << (bend - 16));
        k = k | (a2 << (bend - 24));
        k = k | (a3 >> (32 - bend));
        proof {
            assert forall|j: int| 0 <= j < bits implies bit_at(o, off + j) == #[trigger] field_bit(
                k,
                bits,
                j,
            ) by {
                lemma_field_four(a0, a1, a2, a3, boff, bits, j as u32);
                lemma_bit_place(off, j);
            }
        }
    } else if bend > 16 {
        let a0: u32 = addr[first] as u32;
        let a1: u32 = addr[first + 1] as u32;
        let a2: u32 = addr[first + 2] as u32;
        proof {
            lemma_field_three(a0, a1, a2, boff, bits, 0);
        }
        k = (a0 & ((1u32 << (8 - boff)) - 1)) << (bend - 8);
        k = k | (a1 << (bend - 16));
        k = k | (a2 >> (24 - bend));
        proof {
            assert forall|j: int| 0 <= j < bits implies bit_at(o, off + j) == #[trigger] field_bit(
                k,
                bits,
                j,
            ) by {
                lemma_field_three(a0, a1, a2, boff, bits, j as u32);
                lemma_bit_place(off, j);
            }
        }
    } else if bend > 8 {
        let a0: u32 = addr[first] as u32;
        let a1: u32 = addr[first + 1] as u32;
        proof {
            lemma_field_two(a0, a1, boff, bits, 0);
        }
        k = (a0 & ((1u32 << (8 - boff)) - 1)) << (bend - 8);
        k = k | (a1 >> (16 - bend));
        proof {
            assert forall|j: int| 0 <= j < bits implies bit_at(o, off + j) == #[trigger] field_bit(
                k,
                bits,
                j,
            ) by {
                lemma_field_two(a0, a1, boff, bits, j as u32);
                lemma_bit_place(off, j);
            }
        }
    } else {
        let a0: u32 = addr[first] as u32;
        proof {
            lemma_field_one(a0, boff, bits, 0);
        }
        k = (a0 >> (8 - bend)) & ((1u32 << bits) - 1);
        proof {
            assert forall|j: int| 0 <= j < bits implies bit_at(o, off + j) == #[trigger] field_bit(
                k,
                bits,
                j,
            ) by {
                lemma_field_one(a0, boff, bits, j as u32);
                lemma_bit_place(off, j);
            }
        }
    }
    k
}

/// The base index in `at` of the first `plen` bits of `prefix`, or nothing
/// when the prefix does not end within the stride of `at`.
pub fn art_bindex<P: Prefix>(at: &ArtTable, prefix: &P, plen: u8) -> (r: Option<u32>)
    requires
        at.wf(),
        at@.offset <= plen <= at@.offset + at@.bits ==> at@.offset + at@.bits <= 8
            * prefix.octets_spec().len(),
    ensures
        match r {
            Some(i) => at@.slot(prefix.octets_spec(), plen as int) == Some(i as nat),
            None => at@.slot(prefix.octets_spec(), plen as int) is None,
        },
        r matches Some(i) ==> 1 <= i < at@.entry.len(),
{
    if plen < at.offset || plen > at.offset + at.bits {
        return None;
    }
    // Only the part of the prefix length that falls into this table counts.

    let plen: u32 = (plen - at.offset) as u32;
    let addr = prefix.to_octets();
    let k: u32 = art_field(&addr, at.offset, at.bits);
    let bits: u32 = at.bits as u32;
    proof {
        lemma_field_heap_index(addr@, at.offset as int, bits, k, plen);
        lemma_heap_index_row(addr@, at.offset as int, plen as nat);
        lemma_pow2_grows(plen as nat, at.bits as nat);
    }
    Some((k >> (bits - plen)) + (1u32 << plen))
}

/// The fringe slot of `at` through which the descent along `prefix` goes.
pub fn art_findex<P: Prefix>(at: &ArtTable, prefix: &P) -> (r: Option<u32>)
    requires
        at.wf(),
        at@.offset + at@.bits <= 8 * prefix.octets_spec().len(),
    ensures
        r == Some(at@.fringe_slot(prefix.octets_spec()) as u32),
        at@.fringe() <= at@.fringe_slot(prefix.octets_spec()) < at@.entry.len(),
{
    proof {
        lemma_heap_index_row(prefix.octets_spec(), at@.offset as int, at@.bits);
    }
    art_bindex(at, prefix, at.offset + at.bits)
}

} // verus!
