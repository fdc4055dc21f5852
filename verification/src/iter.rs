//! Traversal of the routes of a routing table.

use std::rc::Rc;
use vstd::prelude::*;
use crate::descent::{lemma_child, lemma_root, lemma_table};
use crate::prefix::Prefix;
use crate::root::{ArtNode, ArtRoot};
use crate::table::{ArtEntry, art_bindex};
use crate::walk::{lemma_walk_down, lemma_walk_on, lemma_walk_up};

verus! {

/// A traversal of a routing table: it stands at a slot of a table and
/// yields each route in the slot where its prefix ends.
pub struct ArtIter<'a, P, D> {
    root: &'a ArtRoot<P, D>,
    at: usize,
    i: usize,
}

impl<'a, P: Prefix + Copy, D> ArtIter<'a, P, D> {
    /// The routing table that is traversed.
    pub closed spec fn root(&self) -> &ArtRoot<P, D> {
        self.root
    }

    /// The routes that are still to come, by their names in the arena.
    pub closed spec fn rest(&self) -> Seq<usize> {
        self.root@.walk_rest(self.at as int, self.i as int)
    }

    /// The traversal stands in a table of a well-formed routing table.
    pub closed spec fn wf(&self) -> bool {
        &&& self.root.wf()
        &&& self.at < self.root@.tables.len()
        &&& 1 <= self.i <= self.root@.tables[self.at as int].entry.len()
    }

    /// The traversal that starts at slot 1 of the root table.
    pub(crate) fn start(root: &'a ArtRoot<P, D>) -> (it: Self)
        requires
            root.wf(),
        ensures
            it.wf(),
            it.root() == root,
            it.rest() == root@.walk_all(),
    {
        proof {
            lemma_table(root@, 0);
            lemma_root(root@);
            assert(root@.walk_above(0) == Seq::<usize>::empty());
            assert(root@.walk_rest(0, 1) =~= root@.walk_all());
        }
        ArtIter { root, at: 0, i: 1 }
    }

    /// The next route of the traversal, or nothing when all are done.
    pub fn next(&mut self) -> (item: Option<Rc<ArtNode<P, D>>>)
        requires
            old(self).wf(),
        ensures
            final(self).wf(),
            final(self).root() == old(self).root(),
            match item {
                Some(node) => {
                    &&& old(self).rest().len() > 0
                    &&& old(self).rest()[0] < old(self).root().nodes().len()
                    &&& node == old(self).root().nodes()[old(self).rest()[0] as int]
                    &&& final(self).rest() == old(self).rest().skip(1)
                },
                None => old(self).rest().len() == 0 && final(self).rest().len() == 0,
            },
    {
        let ghost art = self.root@;
        proof {
            self.root.lemma_routes();
        }
        loop
            invariant
                self.wf(),
                self.root == old(self).root,
                art == self.root@,
                art.routes.len() == self.root.nodes().len(),
                self.rest() == old(self).rest(),
            ensures
                self.rest().len() == 0,
            decreases art.steps_rest(self.at as int, self.i as int),
        {
            let ghost start = art.steps_rest(self.at as int, self.i as int);
            while self.i < self.root.table(self.at).slots() as usize
                invariant
                    art.steps_rest(self.at as int, self.i as int) <= start,
                    self.wf(),
                    self.root == old(self).root,
                    art == self.root@,
                    art.routes.len() == self.root.nodes().len(),
                    self.rest() == old(self).rest(),
                ensures
                    self.i == art.tables[self.at as int].entry.len(),
                decreases art.steps_rest(self.at as int, self.i as int),
            {
                let table = self.root.table(self.at);
                proof {
                    lemma_table(art, self.at as int);
                    lemma_child(art, self.at as int, self.i as int);
                    self.root.lemma_routes();
                }
                let entry = table.get_entry(self.i as u32);
                match entry {
                    ArtEntry::Node(n) => {
                        proof {
                            lemma_walk_on(art, self.at as int, self.i as int);
                            assert(art.route_ok(n as int));
                        }
                        let node = self.root.node(n);
                        if let Some(j) = art_bindex(table, &node.prefix, node.prefix.prefix_len()) {
                            if self.i == j as usize {
                                self.i += 1;
                                proof {
                                    assert(old(self).rest() =~= seq![n] + self.rest());
                                    assert(self.rest() =~= old(self).rest().skip(1));
                                }
                                return Some(node);
                            }
                        }
                        self.i += 1;
                    },
                    ArtEntry::Table(t) => {
                        proof {
                            lemma_walk_down(art, self.at as int, self.i as int);
                        }
                        self.at = t;
                        self.i = 1;
                    },
                    ArtEntry::Empty => {
                        proof {
                            lemma_walk_on(art, self.at as int, self.i as int);
                        }
                        self.i += 1;
                    },
                }
            }
            if let Some(parent) = self.root.table(self.at).parent() {
                proof {
                    lemma_walk_up(art, self.at as int);
                    lemma_table(art, parent as int);
                    assert(art.table_ok(self.at as int));
                }
                self.i = (self.root.table(self.at).index() + 1) as usize;
                self.at = parent;
            } else {
                proof {
                    assert(art.table_ok(self.at as int));
                    assert(art.walk(self.at as int, self.i as int) == Seq::<usize>::empty());
                    assert(art.walk_above(self.at as int) == Seq::<usize>::empty());
                }
                break ;
            }
        }
        None
    }

    /// The number of routes that are still to come. The traversal is used
    /// up. A number that `usize` cannot hold is given as `usize::MAX`.
    pub fn count(self) -> (n: usize)
        requires
            self.wf(),
        ensures
            n == if self.rest().len() <= usize::MAX {
                self.rest().len()
            } else {
                usize::MAX as nat
            },
    {
        let mut it = self;
        let mut n: usize = 0;
        let ghost all = it.rest();
        loop
            invariant
                it.wf(),
                n <= all.len(),
                n < usize::MAX ==> n + it.rest().len() == all.len(),
            ensures
                n == if all.len() <= usize::MAX {
                    all.len()
                } else {
                    usize::MAX as nat
                },
            decreases it.rest().len(),
        {
            let item = it.next();
            if item.is_none() {
                break ;
            }
            if n < usize::MAX {
                n += 1;
            }
        }
        n
    }
}

} // verus!
