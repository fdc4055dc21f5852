//! What an insertion and a deletion do, as a caller sees it: the table
//! holds one prefix more or less, and nothing else changes.

use vstd::prelude::*;
use crate::count::{lemma_delete_count, lemma_insert_count};
use crate::empty::lemma_with_route;
use crate::exact::{lemma_delete_exact, lemma_insert_exact};
use crate::fresh::{lemma_delete_fresh, lemma_insert_fresh, lemma_route_fresh};
use crate::full::{lemma_delete_full, lemma_insert_full, lemma_route_full};
use crate::model::Art;
use crate::prefix::same_prefix;
use crate::table::ArtEntry;

verus! {

impl Art {
    /// Whether `new` is this table with the route `n` for the prefix
    /// `(o, plen)`: an exact lookup of the prefix finds `n`, an exact
    /// lookup of any other prefix finds what it found, and a traversal
    /// yields one route more if the table held no route of the prefix.
    /// Every route stands where it may, as before; no stale route is left,
    /// if there was none; and the table is full, if it was.
    pub open spec fn with_prefix(self, new: Art, o: Seq<u8>, plen: int, n: usize) -> bool {
        &&& new.inv()
        &&& self.fresh() ==> new.fresh()
        &&& self.full() ==> new.full()
        &&& new.lookup_exact(o, plen) == Some(n)
        &&& forall|qo: Seq<u8>, ql: int|
            0 <= ql && !same_prefix(o, plen, qo, ql) ==> #[trigger] new.lookup_exact(qo, ql)
                == self.lookup_exact(qo, ql)
        &&& new.walk_all().len() == self.walk_all().len() + if self.lookup_exact(o, plen) is None {
            1int
        } else {
            0int
        }
    }

    /// Whether `new` is this table without the prefix `(o, plen)`: an
    /// exact lookup of the prefix finds nothing, an exact lookup of any
    /// other prefix finds what it found, and a traversal yields one route
    /// less if the table held a route of the prefix. Every route stands
    /// where it may, as before, and no stale route is left, if there was
    /// none. The table is full, if it was and the deletion hands down
    /// again what the route of the prefix had taken.
    pub open spec fn without_prefix(self, new: Art, o: Seq<u8>, plen: int) -> bool {
        &&& new.inv()
        &&& self.fresh() ==> new.fresh()
        &&& self.full() && self.restores(o, plen) ==> new.full()
        &&& new.lookup_exact(o, plen) is None
        &&& forall|qo: Seq<u8>, ql: int|
            0 <= ql && !same_prefix(o, plen, qo, ql) ==> #[trigger] new.lookup_exact(qo, ql)
                == self.lookup_exact(qo, ql)
        &&& new.walk_all().len() == self.walk_all().len() - if self.lookup_exact(o, plen) is Some {
            1int
        } else {
            0int
        }
    }
}

/// An insertion of a route under its own prefix, no longer than the
/// address, gives the table that prefix.
pub proof fn lemma_inserted(art: Art, new: Art, an: ArtEntry, o: Seq<u8>, plen: int)
    requires
        art.wf(),
        new.wf(),
        0 <= plen,
        new == art.insert(an, o, plen),
    ensures
        art.inv() && art.names(an, o, plen) && plen <= art.alen() ==> art.with_prefix(
            new,
            o,
            plen,
            an->Node_0,
        ),
{
    if art.inv() && art.names(an, o, plen) && plen <= art.alen() {
        lemma_insert_exact(art, an, o, plen);
        lemma_insert_count(art, an, o, plen);
        assert(same_prefix(o, plen, o, plen));
        if art.fresh() {
            lemma_insert_fresh(art, an, o, plen);
        }
        if art.full() {
            lemma_insert_full(art, an, o, plen);
        }
    }
}

/// The addition of a route for a prefix that is no longer than the address
/// gives the table that prefix.
pub proof fn lemma_added(art: Art, new: Art, o: Seq<u8>, plen: nat)
    requires
        art.wf(),
        new.wf(),
        art.routes.len() < usize::MAX,
        8 * o.len() >= art.alen(),
        new == art.add(o, plen),
    ensures
        art.inv() && plen <= art.alen() ==> art.with_prefix(
            new,
            o,
            plen as int,
            art.routes.len() as usize,
        ),
{
    if art.inv() && plen <= art.alen() {
        let more = art.with_route(o, plen);
        let an = ArtEntry::Node(art.routes.len() as usize);
        lemma_with_route(art, o, plen);
        if art.fresh() {
            lemma_route_fresh(art, o, plen);
        }
        if art.full() {
            lemma_route_full(art, o, plen);
        }
        lemma_inserted(more, new, an, o, plen as int);
    }
}

/// A deletion takes the prefix from the table.
pub proof fn lemma_deleted(art: Art, new: Art, o: Seq<u8>, plen: int)
    requires
        art.wf(),
        0 <= plen,
        new == art.delete(o, plen),
    ensures
        art.inv() ==> art.without_prefix(new, o, plen),
{
    if art.inv() {
        lemma_delete_exact(art, o, plen);
        lemma_delete_count(art, o, plen);
        assert(same_prefix(o, plen, o, plen));
        if art.fresh() {
            lemma_delete_fresh(art, o, plen);
        }
        if art.full() && art.restores(o, plen) {
            lemma_delete_full(art, o, plen);
        }
    }
}

} // verus!
