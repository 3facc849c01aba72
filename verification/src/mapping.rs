//! The address space: its table tree, its segments, and the operations on
//! single pages.
use vstd::prelude::*;
use vstd::seq_lib::*;
use crate::address::{directory_of, leaf_table_of, PhysicalPageNumber, VirtualPageNumber};
use crate::error::MapError;
use crate::flags::Flags;
use crate::frame::{FrameAllocator, FrameTracker};
use crate::model::{map_page, Shape, Translation};
use crate::page_table::{PageTable, PageTableEntry};
use crate::segment::{describes, held_frames, Segment};
use crate::tree::Tree;

verus! {

/// The mappings of one execution context.
///
/// `page_tables` holds every table node of the tree, the root first; an
/// interior entry names its child by the child's place in that list.
/// `segments` lists the ranges that were mapped, in the order of the calls.
pub struct Mapping {
    page_tables: Vec<PageTable>,
    segments: Vec<Segment>,
}

impl Mapping {
    /// The table nodes, the root first.
    pub(crate) closed spec fn tree(&self) -> Tree {
        Tree { tables: self.page_tables@ }
    }

    /// The table nodes, the root first.
    pub closed spec fn nodes(&self) -> Seq<PageTable> {
        self.page_tables@
    }

    /// The numbers of the frames that hold the table nodes, the root's first.
    pub closed spec fn table_frames(&self) -> Seq<int> {
        self.page_tables@.map_values(|table: PageTable| table.frame.number())
    }

    /// The segments, in the order in which they were mapped.
    pub closed spec fn recorded(&self) -> Seq<Segment> {
        self.segments@
    }

    /// The numbers of the frames that the address space holds: those of its
    /// table nodes and those of its framed segments.
    pub open spec fn owned_frames(&self) -> Set<int> {
        self.table_frames().to_set().union(held_frames(self.recorded()).to_set())
    }

    /// The address space is consistent: its tables form a tree of three
    /// levels in which every table but the root is pointed to by exactly one
    /// interior entry, every framed segment holds one frame per page, and no
    /// frame is held twice.
    pub closed spec fn wf(&self) -> bool {
        &&& self.tree().wf()
        &&& forall|i: int| 0 <= i < self.segments@.len() ==> (#[trigger] self.segments@[i]).wf()
        &&& self.table_frames().no_duplicates()
        &&& held_frames(self.recorded()).no_duplicates()
        &&& self.table_frames().to_set().disjoint(held_frames(self.recorded()).to_set())
        &&& forall|i: int|
            0 <= i < self.table_frames().len() ==> 0 <= (#[trigger] self.table_frames()[i])
                < 0x1000_0000_0000
    }

    /// Which tables and terminal entries the tree has.
    pub closed spec fn shape(&self) -> Shape {
        self.tree().shape()
    }

    /// What a walk of the tree finds: for each slot with a terminal entry,
    /// the physical page and the permissions it is bound to.
    pub closed spec fn leaves(&self) -> Map<int, Translation> {
        self.tree().leaves()
    }

    /// The number of the frame that holds the root table.
    pub open spec fn root(&self) -> int {
        self.table_frames()[0]
    }

    /// The segments say all that is mapped: a walk finds a terminal entry
    /// exactly for the pages of the segments, bound as the segments say.
    pub open spec fn covered(&self) -> bool {
        describes(self.recorded(), self.leaves())
    }

    /// What consistency means for the model: the shape is that of a tree,
    /// the leaves are the terminal entries of the shape, and there is a root.
    pub proof fn lemma_wf(&self)
        requires
            self.wf(),
        ensures
            self.shape().wf(),
            self.leaves().dom() == self.shape().mapped,
            self.table_frames().len() >= 1,
            0 <= self.root() < 0x1000_0000_0000,
            self.table_frames().no_duplicates(),
            held_frames(self.recorded()).no_duplicates(),
            self.table_frames().to_set().disjoint(held_frames(self.recorded()).to_set()),
            forall|i: int|
                0 <= i < self.recorded().len() ==> (#[trigger] self.recorded()[i]).wf(),
    {
        reveal(Shape::wf);
    }

    /// The second-level table above `slot`, if there is one: what the root
    /// entry above the slot points to.
    pub open spec fn directory(&self, slot: int) -> Option<int> {
        self.nodes()[0].slots()[directory_of(slot)].child()
    }

    /// The last-level table above `slot`, if there is one.
    pub open spec fn leaf_table(&self, slot: int) -> Option<int> {
        match self.directory(slot) {
            Some(directory) => self.nodes()[directory].slots()[leaf_table_of(slot) % 512].child(),
            None => None,
        }
    }

    /// What the walk from the root finds at `slot`.
    pub open spec fn walk(&self, slot: int) -> Option<Translation> {
        match self.leaf_table(slot) {
            Some(table) => match self.nodes()[table].slots()[slot % 512] {
                PageTableEntry::Leaf { page_number, flags } => Some(
                    Translation { page_number, flags },
                ),
                _ => None,
            },
            None => None,
        }
    }

    /// The model is what the walk finds: a slot is a leaf exactly if the walk
    /// ends in a terminal entry, and the shape has the tables that the walk
    /// passes.
    pub proof fn lemma_walk(&self, slot: int)
        requires
            self.wf(),
            0 <= slot < 0x800_0000,
        ensures
            self.shape().directories.contains(directory_of(slot)) == self.directory(slot) is Some,
            self.shape().leaf_tables.contains(leaf_table_of(slot)) == self.leaf_table(slot) is Some,
            self.shape().mapped.contains(slot) == self.walk(slot) is Some,
            self.leaves().dom().contains(slot) == self.walk(slot) is Some,
            self.walk(slot) is Some ==> self.leaves()[slot] == self.walk(slot).unwrap(),
    {
        let tree = self.tree();
        self.nodes()[0].lemma_number();
        if tree.directory(slot) is Some {
            let directory = tree.directory(slot).unwrap();
            self.nodes()[directory].lemma_number();
            if tree.leaf_table(slot) is Some {
                let table = tree.leaf_table(slot).unwrap();
                self.nodes()[table].lemma_number();
            }
        }
    }

    /// Whether an interior entry of a table before `child` in the list names
    /// the table `child`.
    pub open spec fn has_parent(&self, child: int) -> bool {
        exists|n: int, i: int|
            0 <= n < child && 0 <= i < 512 && (#[trigger] self.nodes()[n].slots()[i]).child()
                == Some(child)
    }

    /// In a consistent address space the tables form a tree. Each table
    /// lives in the frame that `table_frames` names for it and has 512
    /// slots. An interior entry names a table behind its own in the list,
    /// together with the frame that table lives in. And every table but the
    /// root is named by exactly one interior entry.
    pub proof fn lemma_tree(&self)
        requires
            self.wf(),
        ensures
            self.nodes().len() == self.table_frames().len(),
            forall|n: int|
                0 <= n < self.nodes().len() ==> (#[trigger] self.nodes()[n]).number()
                    == self.table_frames()[n] && self.nodes()[n].slots().len() == 512,
            forall|n: int, i: int|
                0 <= n < self.nodes().len() && 0 <= i < 512 ==> (
                #[trigger] self.nodes()[n].slots()[i] matches PageTableEntry::Interior {
                    page_number,
                    node,
                } ==> n < node < self.nodes().len() && page_number.0
                    == self.table_frames()[node as int]),
            forall|child: int| 1 <= child < self.nodes().len() ==> #[trigger] self.has_parent(child),
            forall|n: int, i: int, m: int, j: int|
                0 <= n < self.nodes().len() && 0 <= i < 512 && 0 <= m < self.nodes().len() && 0
                    <= j < 512 && (#[trigger] self.nodes()[n].slots()[i]).child() is Some
                    && self.nodes()[n].slots()[i].child() == (
                #[trigger] self.nodes()[m].slots()[j]).child() ==> n == m && i == j,
    {
        let tree = self.tree();
        assert forall|n: int| 0 <= n < self.nodes().len() implies (#[trigger] self.nodes()[n]).number()
            == self.table_frames()[n] && self.nodes()[n].slots() == tree.tables[n].entries@ by {
            self.nodes()[n].lemma_number();
        }
        assert forall|n: int, i: int| 0 <= n < self.nodes().len() && 0 <= i < 512 implies (
        #[trigger] self.nodes()[n].slots()[i]) == tree.entry(n, i) by {
        }
        assert forall|child: int| 1 <= child < self.nodes().len() implies #[trigger] self.has_parent(
            child,
        ) by {
            assert(tree.has_parent(child));
        }
        assert forall|n: int, i: int, m: int, j: int|
            0 <= n < self.nodes().len() && 0 <= i < 512 && 0 <= m < self.nodes().len() && 0 <= j
                < 512 && (#[trigger] self.nodes()[n].slots()[i]).child() is Some
                && self.nodes()[n].slots()[i].child() == (
            #[trigger] self.nodes()[m].slots()[j]).child() implies n == m && i == j by {
            assert(tree.child(n, i) == self.nodes()[n].slots()[i].child());
            assert(tree.child(m, j) == self.nodes()[m].slots()[j].child());
        }
    }

    /// An address space with a root table and nothing mapped.
    ///
    /// Takes one frame, for the root. Fails exactly when the pool is empty.
    pub fn new(allocator: &mut FrameAllocator) -> (mapping: Result<Mapping, MapError>)
        requires
            old(allocator).wf(),
        ensures
            final(allocator).wf(),
            match mapping {
                Ok(space) => {
                    &&& space.wf()
                    &&& space.shape() == Shape::empty()
                    &&& space.leaves() == Map::<int, Translation>::empty()
                    &&& space.recorded() == Seq::<Segment>::empty()
                    &&& space.covered()
                    &&& space.table_frames().len() == 1
                    &&& old(allocator).free().contains(space.root())
                    &&& final(allocator).free() == old(allocator).free().remove(space.root())
                    &&& space.owned_frames() == Set::<int>::empty().insert(space.root())
                },
                Err(error) => {
                    &&& error == MapError::ResourceExhausted
                    &&& old(allocator).free().is_empty()
                    &&& final(allocator).free() == old(allocator).free()
                },
            },
    {
        let frame = match allocator.allocate() {
            Ok(frame) => frame,
            Err(error) => {
                return Err(error);
            },
        };
        let root = PageTable::new(frame, Ghost(0));
        let mut page_tables: Vec<PageTable> = Vec::new();
        page_tables.push(root);
        let space = Mapping { page_tables, segments: Vec::new() };
        proof {
            assert(space.shape().directories =~= Set::<int>::empty());
            assert(space.shape().leaf_tables =~= Set::<int>::empty());
            assert(space.leaves() =~= Map::<int, Translation>::empty());
        }
        Ok(space)
    }

    /// The table that slot `index` of `node` points to, if it points to one.
    fn child_at(&self, node: usize, index: usize) -> (child: Option<usize>)
        requires
            self.wf(),
            node < self.page_tables@.len(),
            index < 512,
            self.tree().level(node as int) < 2,
        ensures
            match child {
                Some(found) => self.tree().child(node as int, index as int) == Some(found as int),
                None => self.tree().entry(node as int, index as int) is Empty,
            },
    {
        proof {
            assert(self.tree().tables[node as int].entries@.len() == 512);
            assert(self.tree().entry(node as int, index as int) is Leaf ==> self.tree().level(
                node as int,
            ) == 2);
        }
        match self.page_tables[node].entries[index] {
            PageTableEntry::Interior { node: child, .. } => Some(child),
            _ => None,
        }
    }

    /// Makes `frame` a blank table of the address space and lets slot `index`
    /// of `node`, empty so far, point to it.
    fn link(&mut self, node: usize, index: usize, frame: FrameTracker) -> (child: usize)
        requires
            old(self).wf(),
            node < old(self).page_tables@.len(),
            index < 512,
            old(self).tree().level(node as int) < 2,
            old(self).tree().entry(node as int, index as int) is Empty,
            !old(self).owned_frames().contains(frame.number()),
        ensures
            final(self).wf(),
            child == old(self).page_tables@.len(),
            Tree::grown(old(self).tree(), final(self).tree(), node as int, index as int),
            final(self).table_frames() == old(self).table_frames().push(frame.number()),
            final(self).recorded() == old(self).recorded(),
            final(self).owned_frames() == old(self).owned_frames().insert(frame.number()),
    {
        let child: usize = self.page_tables.len();
        let page_number = frame.page_number();
        let ghost level = self.tree().level(node as int) + 1;
        let ghost number = frame.number();
        proof {
            assert(old(self).tree().tables[node as int].entries@.len() == 512);
        }
        self.page_tables.push(PageTable::new(frame, Ghost(level)));
        self.page_tables[node].entries[index] = PageTableEntry::Interior {
            page_number,
            node: child,
        };
        proof {
            Tree::lemma_grown_tree(old(self).tree(), self.tree(), node as int, index as int);
            let before = old(self).table_frames();
            let after = self.table_frames();
            assert(after =~= before.push(number));
            before.lemma_push_to_set_commute(number);
            assert(!before.to_set().contains(number));
            assert(after.no_duplicates()) by {
                assert forall|i: int, j: int|
                    0 <= i < after.len() && 0 <= j < after.len() && i != j implies after[i]
                    != after[j] by {
                    if i < before.len() {
                        assert(before.to_set().contains(before[i]));
                    }
                    if j < before.len() {
                        assert(before.to_set().contains(before[j]));
                    }
                }
            }
            assert(self.owned_frames() =~= old(self).owned_frames().insert(number));
        }
        child
    }

    /// Binds the page `vpn` to the physical page `ppn` with the permissions
    /// `flags`: walks from the root to the terminal entry of the page,
    /// creating the tables that are missing on the way, and fills the entry.
    ///
    /// Fails with `ResourceExhausted` if the pool does not hold a frame for
    /// each table that is missing, and with `MappingConflict` if the terminal
    /// entry is in use. A table joins the tree, and the list of tables, only
    /// when the walk of its page succeeds: the frames for the missing tables
    /// are taken first, and where one cannot be had those taken go back. So a
    /// call that fails leaves the address space as it was, and the pool with
    /// the frames it had. No segment is recorded.
    pub fn map_one(
        &mut self,
        allocator: &mut FrameAllocator,
        vpn: VirtualPageNumber,
        ppn: PhysicalPageNumber,
        flags: Flags,
    ) -> (result: Result<(), MapError>)
        requires
            old(self).wf(),
            old(allocator).wf(),
            old(self).owned_frames().disjoint(old(allocator).free()),
        ensures
            final(self).wf(),
            final(allocator).wf(),
            final(self).owned_frames().disjoint(final(allocator).free()),
            final(self).owned_frames().union(final(allocator).free()) == old(
                self,
            ).owned_frames().union(old(allocator).free()),
            final(allocator).free().subset_of(old(allocator).free()),
            final(self).recorded() == old(self).recorded(),
            ({
                let outcome = map_page(old(self).shape(), old(allocator).free().len(), vpn.slot());
                &&& result == outcome.result
                &&& final(self).shape() == outcome.shape
                &&& final(allocator).free().len() == outcome.free
            }),
            final(self).leaves() == (if result is Ok {
                old(self).leaves().insert(vpn.slot(), Translation { page_number: ppn, flags })
            } else {
                old(self).leaves()
            }),
            result is Err ==> *final(self) == *old(self) && final(allocator).free() == old(
                allocator,
            ).free(),
            result is Ok ==> final(self).table_frames().len() == old(self).table_frames().len()
                + old(self).shape().missing(vpn.slot()),
            forall|n: int|
                0 <= n < old(self).table_frames().len() ==> final(self).table_frames()[n] == old(
                    self,
                ).table_frames()[n],
            final(self).root() == old(self).root(),
    {
        let levels = vpn.levels();
        let ghost slot = vpn.slot();
        let ghost start = self.tree();
        let ghost pool = allocator.free();
        let ghost translation = Translation { page_number: ppn, flags };
        proof {
            assert(levels[0] == vpn.index(0));
            assert(levels[1] == vpn.index(1));
            assert(levels[2] == vpn.index(2));
            start.lemma_shape_at(slot);
            allocator.lemma_free_bounded();
        }
        let directory = self.child_at(0, levels[0]);
        let table: usize = match directory {
            Some(directory) => {
                proof {
                    assert(start.entry(0, directory_of(slot)) is Interior);
                }
                match self.child_at(directory, levels[1]) {
                    Some(table) => table,
                    None => {
                        let frame = match allocator.allocate() {
                            Ok(frame) => frame,
                            Err(error) => {
                                return Err(error);
                            },
                        };
                        let table = self.link(directory, levels[1], frame);
                        proof {
                            Tree::lemma_grown_directory(start, self.tree(), slot);
                        }
                        table
                    },
                }
            },
            None => {
                let first = match allocator.allocate() {
                    Ok(frame) => frame,
                    Err(error) => {
                        return Err(error);
                    },
                };
                let second = match allocator.allocate() {
                    Ok(frame) => frame,
                    Err(error) => {
                        allocator.deallocate(first);
                        proof {
                            assert(allocator.free() =~= pool);
                        }
                        return Err(error);
                    },
                };
                let directory = self.link(0, levels[0], first);
                let ghost above = self.tree();
                proof {
                    Tree::lemma_grown_root(start, above, directory_of(slot));
                }
                let table = self.link(directory, levels[1], second);
                proof {
                    Tree::lemma_grown_directory(above, self.tree(), slot);
                }
                table
            },
        };
        let ghost below = self.tree();
        let ghost frames = self.table_frames();
        let index: usize = levels[2];
        proof {
            assert(below.leaf_table(slot) == Some(table as int));
            assert(below.tables[table as int].entries@.len() == 512);
            assert(below.entry(table as int, slot % 512) is Interior ==> below.level(table as int)
                < 2);
        }
        if self.page_tables[table].entries[index].is_empty() {
            self.page_tables[table].entries[index] = PageTableEntry::Leaf {
                page_number: ppn,
                flags,
            };
            proof {
                Tree::lemma_bound(below, self.tree(), slot, translation);
                assert(self.table_frames() =~= frames);
                assert(self.shape().directories =~= start.shape().with_page(slot).directories);
                assert(self.shape().leaf_tables =~= start.shape().with_page(slot).leaf_tables);
                assert(self.shape().mapped =~= start.shape().with_page(slot).mapped);
            }
            Ok(())
        } else {
            proof {
                below.lemma_shape_at(slot);
            }
            Err(MapError::MappingConflict)
        }
    }

    /// What the page `vpn` is bound to, if it is bound: the walk of the
    /// tree from the root to the terminal entry of the page.
    pub fn lookup(&self, vpn: VirtualPageNumber) -> (found: Option<Translation>)
        requires
            self.wf(),
        ensures
            found == (if self.leaves().dom().contains(vpn.slot()) {
                Some(self.leaves()[vpn.slot()])
            } else {
                None
            }),
    {
        let levels = vpn.levels();
        let ghost slot = vpn.slot();
        proof {
            assert(levels[0] == vpn.index(0));
            assert(levels[1] == vpn.index(1));
            assert(levels[2] == vpn.index(2));
            assert(self.tree().entry(0, directory_of(slot)) is Interior ==> self.tree().level(0) < 2);
        }
        let directory: usize = match self.page_tables[0].entries[levels[0]] {
            PageTableEntry::Interior { node, .. } => node,
            _ => {
                return None;
            },
        };
        let table: usize = match self.page_tables[directory].entries[levels[1]] {
            PageTableEntry::Interior { node, .. } => node,
            _ => {
                return None;
            },
        };
        match self.page_tables[table].entries[levels[2]] {
            PageTableEntry::Leaf { page_number, flags } => Some(Translation { page_number, flags }),
            _ => None,
        }
    }

    /// The segments, in the order in which they were mapped.
    pub fn segments(&self) -> (segments: &Vec<Segment>)
        ensures
            segments@ == self.recorded(),
    {
        &self.segments
    }

    /// The table nodes, the root first.
    pub fn tables(&self) -> (tables: &Vec<PageTable>)
        ensures
            tables@ == self.nodes(),
    {
        &self.page_tables
    }

    /// The number of the frame that holds the root table.
    pub fn root_page_number(&self) -> (page: PhysicalPageNumber)
        requires
            self.wf(),
        ensures
            page.0 == self.root(),
            page.0 < 0x1000_0000_0000,
    {
        self.page_tables[0].frame.page_number()
    }

    /// Appends `segment` to the list of segments.
    pub(crate) fn record(&mut self, segment: Segment)
        requires
            old(self).wf(),
            segment.wf(),
            segment.frames().no_duplicates(),
            forall|i: int|
                0 <= i < segment.frames().len() ==> !old(self).owned_frames().contains(
                    #[trigger] segment.frames()[i],
                ),
        ensures
            final(self).wf(),
            final(self).recorded() == old(self).recorded().push(segment),
            final(self).shape() == old(self).shape(),
            final(self).leaves() == old(self).leaves(),
            final(self).table_frames() == old(self).table_frames(),
            final(self).owned_frames() == old(self).owned_frames().union(
                segment.frames().to_set(),
            ),
    {
        let ghost held = held_frames(self.recorded());
        let ghost added = segment.frames();
        self.segments.push(segment);
        proof {
            assert(self.recorded().drop_last() =~= old(self).recorded());
            seq_to_set_distributes_over_add(held, added);
        }
    }

    /// Gives up the address space: every frame it holds, those of its
    /// tables and those of its framed segments, goes back into the pool.
    pub fn release(self, allocator: &mut FrameAllocator)
        requires
            self.wf(),
            old(allocator).wf(),
            self.owned_frames().disjoint(old(allocator).free()),
        ensures
            final(allocator).wf(),
            final(allocator).free() == old(allocator).free().union(self.owned_frames()),
    {
        let ghost tables = self.table_frames();
        let ghost held = held_frames(self.recorded());
        let mut page_tables = self.page_tables;
        let mut segments = self.segments;
        while page_tables.len() > 0
            invariant
                allocator.wf(),
                Self::numbers(page_tables@).no_duplicates(),
                forall|i: int|
                    0 <= i < page_tables@.len() ==> {
                        &&& !allocator.free().contains(#[trigger] Self::numbers(page_tables@)[i])
                        &&& !held.to_set().contains(Self::numbers(page_tables@)[i])
                    },
                allocator.free().union(Self::numbers(page_tables@).to_set()) == old(
                    allocator,
                ).free().union(tables.to_set()),
                held.to_set().disjoint(allocator.free()),
            decreases page_tables@.len(),
        {
            let ghost before = Self::numbers(page_tables@);
            let table = page_tables.pop().unwrap();
            let frame = table.into_frame();
            proof {
                let after = Self::numbers(page_tables@);
                assert(after =~= before.drop_last());
                assert(before =~= after.push(frame.number()));
                assert(frame.number() == before[before.len() - 1]);
            }
            allocator.deallocate(frame);
        }
        proof {
            assert(allocator.free() =~= old(allocator).free().union(tables.to_set()));
        }
        while segments.len() > 0
            invariant
                allocator.wf(),
                held_frames(segments@).no_duplicates(),
                forall|i: int|
                    0 <= i < held_frames(segments@).len() ==> !allocator.free().contains(
                        #[trigger] held_frames(segments@)[i],
                    ),
                allocator.free().union(held_frames(segments@).to_set()) == old(
                    allocator,
                ).free().union(self.owned_frames()),
            decreases segments@.len(),
        {
            let ghost before = held_frames(segments@);
            let segment = segments.pop().unwrap();
            let ghost rest = held_frames(segments@);
            let ghost last = segment.frames();
            proof {
                seq_to_set_distributes_over_add(rest, last);
                assert(last.no_duplicates()) by {
                    assert forall|i: int, j: int|
                        0 <= i < last.len() && 0 <= j < last.len() && i != j implies last[i]
                        != last[j] by {
                        assert(before[rest.len() + i] == last[i]);
                        assert(before[rest.len() + j] == last[j]);
                    }
                }
                assert(rest.no_duplicates()) by {
                    assert forall|i: int, j: int|
                        0 <= i < rest.len() && 0 <= j < rest.len() && i != j implies rest[i]
                        != rest[j] by {
                        assert(before[i] == rest[i]);
                        assert(before[j] == rest[j]);
                    }
                }
                assert forall|i: int| 0 <= i < last.len() implies !allocator.free().contains(
                    #[trigger] last[i],
                ) by {
                    assert(before[rest.len() + i] == last[i]);
                }
            }
            match segment {
                Segment::Linear { .. } => {
                },
                Segment::Framed { frames, .. } => {
                    allocator.deallocate_all(frames);
                },
            }
            proof {
                assert forall|i: int| 0 <= i < rest.len() implies !allocator.free().contains(
                    #[trigger] rest[i],
                ) by {
                    assert(before[i] == rest[i]);
                    if last.to_set().contains(rest[i]) {
                        let j = choose|j: int| 0 <= j < last.len() && last[j] == rest[i];
                        assert(before[rest.len() + j] == last[j]);
                    }
                }
            }
        }
    }

    /// The numbers of the frames that hold a list of tables.
    spec fn numbers(tables: Seq<PageTable>) -> Seq<int> {
        tables.map_values(|table: PageTable| table.frame.number())
    }
}

} // verus!
