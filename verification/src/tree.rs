//! The table tree as a list of nodes: what a walk finds in it, when it is
//! a tree, and what linking a new table or filling a terminal entry does to
//! its model.
use vstd::prelude::*;
use crate::address::{directory_of, leaf_table_of};
use crate::model::{Shape, Translation};
use crate::page_table::{PageTable, PageTableEntry};

verus! {

/// The table nodes of an address space, the root first.
pub(crate) struct Tree {
    pub(crate) tables: Seq<PageTable>,
}

impl Tree {
    /// The entry in slot `index` of table `node`.
    pub(crate) open spec fn entry(self, node: int, index: int) -> PageTableEntry {
        self.tables[node].entries@[index]
    }

    /// How far table `node` is below the root.
    pub(crate) open spec fn level(self, node: int) -> nat {
        self.tables[node].level@
    }

    /// The number of the frame that holds table `node`.
    pub(crate) open spec fn frame(self, node: int) -> int {
        self.tables[node].frame.number()
    }

    /// The table that slot `index` of table `node` points to, if any.
    pub(crate) open spec fn child(self, node: int, index: int) -> Option<int> {
        match self.entry(node, index) {
            PageTableEntry::Interior { node: child, .. } => Some(child as int),
            _ => None,
        }
    }

    /// The second-level table above `slot`, if there is one.
    pub(crate) open spec fn directory(self, slot: int) -> Option<int> {
        self.child(0, directory_of(slot))
    }

    /// The last-level table above `slot`, if there is one.
    pub(crate) open spec fn leaf_table(self, slot: int) -> Option<int> {
        match self.directory(slot) {
            Some(directory) => self.child(directory, leaf_table_of(slot) % 512),
            None => None,
        }
    }

    /// Whether the last-level table for the slots from `table * 512` on
    /// exists.
    pub(crate) open spec fn has_leaf_table(self, table: int) -> bool {
        self.leaf_table(table * 512) is Some
    }

    /// What the walk from the root finds at `slot`.
    pub(crate) open spec fn walk(self, slot: int) -> Option<Translation> {
        match self.leaf_table(slot) {
            Some(table) => match self.entry(table, slot % 512) {
                PageTableEntry::Leaf { page_number, flags } => Some(
                    Translation { page_number, flags },
                ),
                _ => None,
            },
            None => None,
        }
    }

    /// Whether some interior entry points to table `node`.
    pub(crate) open spec fn has_parent(self, node: int) -> bool {
        exists|parent: int, index: int|
            0 <= parent < self.tables.len() && 0 <= index < 512 && #[trigger] self.child(
                parent,
                index,
            ) == Some(node)
    }

    /// The tables form a tree of three levels under the root: each has 512
    /// slots, interior entries lead one level down to a later table and
    /// name its frame, terminal entries stand in the last level only, and
    /// every table but the root is pointed to by exactly one interior entry.
    pub(crate) open spec fn wf(self) -> bool {
        &&& self.tables.len() >= 1
        &&& self.level(0) == 0
        &&& forall|node: int|
            0 <= node < self.tables.len() ==> {
                &&& (#[trigger] self.tables[node]).entries@.len() == 512
                &&& self.level(node) <= 2
                &&& (node >= 1 ==> self.level(node) >= 1)
            }
        &&& forall|node: int, index: int|
            0 <= node < self.tables.len() && 0 <= index < 512 ==> match #[trigger] self.entry(
                node,
                index,
            ) {
                PageTableEntry::Empty => true,
                PageTableEntry::Interior { page_number, node: child } => {
                    &&& self.level(node) < 2
                    &&& node < child < self.tables.len()
                    &&& self.level(child as int) == self.level(node) + 1
                    &&& page_number.0 == self.frame(child as int)
                },
                PageTableEntry::Leaf { .. } => self.level(node) == 2,
            }
        &&& forall|first: int, i: int, second: int, j: int|
            0 <= first < self.tables.len() && 0 <= i < 512 && 0 <= second
                < self.tables.len() && 0 <= j < 512 && (#[trigger] self.child(first, i))
                is Some && self.child(first, i) == #[trigger] self.child(second, j) ==> first
                == second && i == j
        &&& forall|node: int|
            1 <= node < self.tables.len() ==> #[trigger] self.has_parent(node)
    }

    /// Which tables and terminal entries the tree has.
    pub(crate) open spec fn shape(self) -> Shape {
        Shape {
            directories: Set::new(|d: int| 0 <= d < 512 && self.child(0, d) is Some),
            leaf_tables: Set::new(
                |t: int| 0 <= t < 0x4_0000 && self.has_leaf_table(t),
            ),
            mapped: Set::new(|s: int| 0 <= s < 0x800_0000 && self.walk(s) is Some),
        }
    }

    /// What a walk of the tree finds: for each slot with a terminal entry,
    /// the physical page and the permissions it is bound to.
    pub(crate) open spec fn leaves(self) -> Map<int, Translation> {
        Map::new(
            |s: int| 0 <= s < 0x800_0000 && self.walk(s) is Some,
            |s: int| self.walk(s).unwrap(),
        )
    }

    /// The shape and the leaves at a slot are what the walk to it finds.
    pub(crate) proof fn lemma_shape_at(self, slot: int)
        requires
            0 <= slot < 0x800_0000,
        ensures
            self.shape().directories.contains(directory_of(slot)) == self.directory(slot) is Some,
            self.shape().leaf_tables.contains(leaf_table_of(slot)) == self.leaf_table(slot)
                is Some,
            self.shape().mapped.contains(slot) == self.walk(slot) is Some,
            self.leaves().dom().contains(slot) == self.walk(slot) is Some,
            self.walk(slot) is Some ==> self.leaves()[slot] == self.walk(slot).unwrap(),
    {
        let first = leaf_table_of(slot) * 512;
        assert(0 <= directory_of(slot) < 512);
        assert(0 <= leaf_table_of(slot) < 0x4_0000);
        assert(directory_of(first) == directory_of(slot));
        assert(leaf_table_of(first) == leaf_table_of(slot));
        assert(self.has_leaf_table(leaf_table_of(slot)) == self.leaf_table(slot) is Some);
    }

    /// `post` is `pre` with a new, blank table as its last node, and with
    /// slot `index` of `node`, empty before, pointing to it.
    pub(crate) open spec fn grown(pre: Tree, post: Tree, node: int, index: int) -> bool {
        let child = pre.tables.len() as int;
        &&& post.tables.len() == child + 1
        &&& 0 <= node < child
        &&& 0 <= index < 512
        &&& pre.entry(node, index) is Empty
        &&& post.child(node, index) == Some(child)
        &&& forall|n: int, i: int|
            0 <= n < child && 0 <= i < 512 && !(n == node && i == index) ==> #[trigger] post.entry(
                n,
                i,
            ) == pre.entry(n, i)
        &&& forall|i: int| 0 <= i < 512 ==> (#[trigger] post.entry(child, i)) is Empty
        &&& forall|n: int|
            0 <= n < child ==> (#[trigger] post.tables[n]).entries@.len() == 512
                && post.level(n) == pre.level(n) && post.frame(n) == pre.frame(n)
        &&& post.tables[child].entries@.len() == 512
        &&& post.level(child) == pre.level(node) + 1
    }

    /// Growing a tree keeps it a tree.
    pub(crate) proof fn lemma_grown_tree(pre: Tree, post: Tree, node: int, index: int)
        requires
            pre.wf(),
            Self::grown(pre, post, node, index),
            pre.level(node) < 2,
            post.entry(node, index) matches PageTableEntry::Interior { page_number, .. }
                && page_number.0 == post.frame(pre.tables.len() as int),
        ensures
            post.wf(),
    {
        let child = pre.tables.len() as int;
        assert forall|first: int, i: int, second: int, j: int|
            0 <= first < post.tables.len() && 0 <= i < 512 && 0 <= second
                < post.tables.len() && 0 <= j < 512 && (#[trigger] post.child(first, i))
                is Some && post.child(first, i) == #[trigger] post.child(second, j) implies first
            == second && i == j by {
            if first < child && !(first == node && i == index) {
                assert(pre.child(first, i) == post.child(first, i));
            }
            if second < child && !(second == node && j == index) {
                assert(pre.child(second, j) == post.child(second, j));
            }
        }
        assert forall|n: int| 1 <= n < post.tables.len() implies #[trigger] post.has_parent(
            n,
        ) by {
            if n < child {
                assert(pre.has_parent(n));
                let (parent, slot) = choose|parent: int, slot: int|
                    0 <= parent < pre.tables.len() && 0 <= slot < 512 && #[trigger] pre.child(
                        parent,
                        slot,
                    ) == Some(n);
                assert(post.child(parent, slot) == Some(n));
            }
        }
    }

    /// A new table under the root adds a directory to the shape and changes
    /// nothing else.
    pub(crate) proof fn lemma_grown_root(pre: Tree, post: Tree, index: int)
        requires
            pre.wf(),
            post.wf(),
            Self::grown(pre, post, 0, index),
        ensures
            !pre.shape().directories.contains(index),
            post.shape() == (Shape {
                directories: pre.shape().directories.insert(index),
                ..pre.shape()
            }),
            post.leaves() == pre.leaves(),
    {
        assert(post.shape().directories =~= pre.shape().directories.insert(index));
        assert(post.shape().leaf_tables =~= pre.shape().leaf_tables);
        assert(post.shape().mapped =~= pre.shape().mapped);
    }

    /// A new table under a second-level table adds a last-level table to
    /// the shape and changes nothing else.
    pub(crate) proof fn lemma_grown_directory(pre: Tree, post: Tree, slot: int)
        requires
            pre.wf(),
            post.wf(),
            0 <= slot < 0x800_0000,
            pre.directory(slot) is Some,
            Self::grown(pre, post, pre.directory(slot).unwrap(), leaf_table_of(slot) % 512),
        ensures
            !pre.shape().leaf_tables.contains(leaf_table_of(slot)),
            post.shape() == (Shape {
                leaf_tables: pre.shape().leaf_tables.insert(leaf_table_of(slot)),
                ..pre.shape()
            }),
            post.leaves() == pre.leaves(),
            post.leaf_table(slot) == Some(pre.tables.len() as int),
    {
        assert(post.shape().directories =~= pre.shape().directories);
        assert(post.shape().leaf_tables =~= pre.shape().leaf_tables.insert(leaf_table_of(slot)));
        assert(post.shape().mapped =~= pre.shape().mapped);
    }

    /// `post` is `pre` with the terminal entry of `slot`, empty before, bound
    /// to `translation`.
    pub(crate) open spec fn bound(pre: Tree, post: Tree, slot: int, translation: Translation) -> bool {
        let table = pre.leaf_table(slot).unwrap();
        &&& pre.leaf_table(slot) is Some
        &&& post.tables.len() == pre.tables.len()
        &&& pre.entry(table, slot % 512) is Empty
        &&& post.entry(table, slot % 512) == (PageTableEntry::Leaf {
            page_number: translation.page_number,
            flags: translation.flags,
        })
        &&& forall|n: int, i: int|
            0 <= n < pre.tables.len() && 0 <= i < 512 && !(n == table && i == slot % 512)
                ==> #[trigger] post.entry(n, i) == pre.entry(n, i)
        &&& forall|n: int|
            0 <= n < pre.tables.len() ==> (#[trigger] post.tables[n]).entries@.len()
                == 512 && post.level(n) == pre.level(n) && post.frame(n) == pre.frame(n)
    }

    /// A new terminal entry adds one leaf and changes nothing else.
    pub(crate) proof fn lemma_bound(pre: Tree, post: Tree, slot: int, translation: Translation)
        requires
            pre.wf(),
            0 <= slot < 0x800_0000,
            Self::bound(pre, post, slot, translation),
        ensures
            post.wf(),
            !pre.shape().mapped.contains(slot),
            post.shape() == (Shape { mapped: pre.shape().mapped.insert(slot), ..pre.shape() }),
            post.leaves() == pre.leaves().insert(slot, translation),
    {
        let count = pre.tables.len() as int;
        assert forall|n: int, i: int| 0 <= n < count && 0 <= i < 512 implies post.child(n, i)
            == pre.child(n, i) by {
        }
        assert forall|n: int| 1 <= n < count implies #[trigger] post.has_parent(n) by {
            assert(pre.has_parent(n));
        }
        assert(post.shape().directories =~= pre.shape().directories);
        assert(post.shape().leaf_tables =~= pre.shape().leaf_tables);
        assert(post.shape().mapped =~= pre.shape().mapped.insert(slot));
    }
}

} // verus!
