//! How many routes a traversal yields: one more after the insertion of a
//! prefix that the table did not hold, one less after the deletion of a
//! prefix that it held.

use vstd::prelude::*;
use crate::emits::{lemma_found_stored, lemma_walk_stored};
use crate::empty::lemma_with_route;
use crate::exact::{lemma_delete_exact, lemma_insert_exact};
use crate::model::Art;
use crate::placement::lemma_exact_same;
use crate::prefix::same_prefix;
use crate::table::ArtEntry;

verus! {

/// The number of routes that a traversal yields is the number of stored
/// routes.
pub proof fn lemma_walk_len(art: Art)
    requires
        art.wf(),
        art.inv(),
    ensures
        art.walk_all().to_set().finite(),
        art.walk_all().len() == art.walk_all().to_set().len(),
        forall|n: usize| #[trigger] art.walk_all().to_set().contains(n) <==> art.stored(n),
{
    lemma_walk_stored(art);
    art.walk_all().unique_seq_to_set();
    vstd::seq_lib::seq_to_set_is_finite(art.walk_all());
}

/// **Insertion and the traversal.** After the insertion of a route for a
/// prefix, the traversal yields one route more if the table held no route
/// of that prefix, and as many as before if it held one. The route that
/// was inserted is among them, the route that it replaced is not, and
/// every other route is yielded after the insertion exactly if it was
/// yielded before.
pub proof fn lemma_insert_count(art: Art, an: ArtEntry, o: Seq<u8>, plen: int)
    requires
        art.wf(),
        art.inv(),
        art.insert(an, o, plen).tables.len() <= usize::MAX,
        0 <= plen <= art.alen(),
        art.names(an, o, plen),
    ensures
        art.insert(an, o, plen).walk_all().len() == art.walk_all().len() + if art.lookup_exact(
            o,
            plen,
        ) is None {
            1int
        } else {
            0int
        },
        art.insert(an, o, plen).walk_all().contains(an->Node_0),
        forall|m: usize|
            m != an->Node_0 ==> (#[trigger] art.insert(an, o, plen).walk_all().contains(m) <==> (
            art.walk_all().contains(m) && art.lookup_exact(o, plen) != Some(m))),
{
    let new = art.insert(an, o, plen);
    let n = an->Node_0;
    let before = art.walk_all().to_set();
    let after = new.walk_all().to_set();
    lemma_insert_exact(art, an, o, plen);
    lemma_walk_len(art);
    lemma_walk_len(new);
    lemma_walk_stored(art);
    lemma_walk_stored(new);
    let was = art.lookup_exact(o, plen);
    if was is Some {
        lemma_found_stored(art, o, plen);
    }
    assert(same_prefix(o, plen, o, plen));
    assert(new.stored(n));
    assert forall|m: usize| m != n implies (new.stored(m) <==> (art.stored(m) && was != Some(m))) by {
        if m < art.routes.len() {
            let r = art.routes[m as int];
            if same_prefix(o, plen, r.octets, r.len as int) {
                lemma_exact_same(art, o, r.octets, plen);
            }
        }
    }
    match was {
        Some(old) => {
            assert(after =~= before.remove(old).insert(n));
        },
        None => {
            assert(after =~= before.insert(n));
        },
    }
}

/// **Deletion and the traversal.** After the deletion of a prefix, the
/// traversal yields one route less if the table held a route of that
/// prefix, and as many as before if it held none. The route that was
/// deleted is not among them, and every other route is yielded after the
/// deletion exactly if it was yielded before.
pub proof fn lemma_delete_count(art: Art, o: Seq<u8>, plen: int)
    requires
        art.wf(),
        art.inv(),
        0 <= plen,
    ensures
        art.delete(o, plen).walk_all().len() == art.walk_all().len() - if art.lookup_exact(
            o,
            plen,
        ) is Some {
            1int
        } else {
            0int
        },
        forall|m: usize| #[trigger]
            art.delete(o, plen).walk_all().contains(m) <==> (art.walk_all().contains(m)
                && art.lookup_exact(o, plen) != Some(m)),
{
    let new = art.delete(o, plen);
    let before = art.walk_all().to_set();
    let after = new.walk_all().to_set();
    lemma_delete_exact(art, o, plen);
    lemma_walk_len(art);
    lemma_walk_len(new);
    lemma_walk_stored(art);
    lemma_walk_stored(new);
    let was = art.lookup_exact(o, plen);
    if was is Some {
        lemma_found_stored(art, o, plen);
    }
    assert forall|m: usize| new.stored(m) <==> (art.stored(m) && was != Some(m)) by {
        if m < art.routes.len() {
            let r = art.routes[m as int];
            if same_prefix(o, plen, r.octets, r.len as int) {
                lemma_exact_same(art, o, r.octets, plen);
            }
        }
    }
    match was {
        Some(old) => {
            assert(after =~= before.remove(old));
        },
        None => {
            assert(after =~= before);
        },
    }
}

/// **Adding a route.** After a route for a prefix is taken into the arena
/// and inserted, an exact lookup of the prefix finds the new route, an
/// exact lookup of any other prefix finds what it found before, and the
/// traversal yields one route more if the table held no route of the
/// prefix, and as many as before if it held one.
pub proof fn lemma_add(art: Art, o: Seq<u8>, plen: nat)
    requires
        art.wf(),
        art.inv(),
        art.routes.len() < usize::MAX,
        art.add(o, plen).tables.len() <= usize::MAX,
        8 * o.len() >= art.alen(),
        plen <= art.alen(),
    ensures
        art.add(o, plen).wf(),
        art.add(o, plen).inv(),
        art.add(o, plen).routes == art.routes.push(crate::model::Route { len: plen, octets: o }),
        forall|qo: Seq<u8>, ql: int|
            0 <= ql ==> #[trigger] art.add(o, plen).lookup_exact(qo, ql) == if same_prefix(
                o,
                plen as int,
                qo,
                ql,
            ) {
                Some(art.routes.len() as usize)
            } else {
                art.lookup_exact(qo, ql)
            },
        art.add(o, plen).walk_all().len() == art.walk_all().len() + if art.lookup_exact(
            o,
            plen as int,
        ) is None {
            1int
        } else {
            0int
        },
{
    let more = art.with_route(o, plen);
    let an = ArtEntry::Node(art.routes.len() as usize);
    lemma_with_route(art, o, plen);
    lemma_insert_exact(more, an, o, plen as int);
    lemma_insert_count(more, an, o, plen as int);
}

} // verus!
