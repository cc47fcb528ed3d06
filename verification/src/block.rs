//! Cell contents: block values, block-type descriptors and their registry.

use crate::state::State;
use vstd::prelude::*;

verus! {

/// This trait represents the behaviour of every block, depending on the
/// block's type. Behaviour hooks are invoked by the layers driving the grid;
/// the type itself only carries a stable identity.
pub trait BlockType {
    /// The identifier as a mathematical sequence of characters.
    spec fn spec_id(&self) -> Seq<char>;

    /// Returns the identifier (an unique name) of this block type. The value
    /// returned is constant all the time.
    fn id(&self) -> (r: &'static str)
        ensures
            r@ == self.spec_id(),
    ;
}

/// The standard block type: a plain filled cell with no special behaviour.
#[derive(Clone, Copy, PartialEq, Eq, Structural, Debug)]
pub struct StandardType {}

impl BlockType for StandardType {
    open spec fn spec_id(&self) -> Seq<char> {
        "Standard"@
    }

    fn id(&self) -> (r: &'static str) {
        "Standard"
    }
}

/// The rock block type: a cell that takes part in collisions but carries no
/// further behaviour of its own.
#[derive(Clone, Copy, PartialEq, Eq, Structural, Debug)]
pub struct RockType {}

impl BlockType for RockType {
    open spec fn spec_id(&self) -> Seq<char> {
        "Rock"@
    }

    fn id(&self) -> (r: &'static str) {
        "Rock"
    }
}

/// One of the statically known block types, stored by value: the closed set
/// of variants keeps cells free of dynamic dispatch, and many cells may
/// share the same type.
#[derive(Clone, Copy, PartialEq, Eq, Structural, Debug)]
pub enum BlockKind {
    Standard(StandardType),
    Rock(RockType),
}

impl BlockType for BlockKind {
    open spec fn spec_id(&self) -> Seq<char> {
        match self {
            BlockKind::Standard(t) => t.spec_id(),
            BlockKind::Rock(t) => t.spec_id(),
        }
    }

    fn id(&self) -> (r: &'static str) {
        match self {
            BlockKind::Standard(t) => t.id(),
            BlockKind::Rock(t) => t.id(),
        }
    }
}

/// A cell's contents: a block type (shared by many cells) and this block's
/// own bit-packed state.
#[derive(Clone, Copy, Debug)]
pub struct Block {
    pub block_type: BlockKind,
    pub state: State,
}

impl Block {
    /// Creates a block of the given type, with every state bit zero.
    pub fn new(t: BlockKind) -> (r: Block)
        ensures
            r.block_type == t,
            r.state@ == 0u64,
    {
        Block { block_type: t, state: State::new() }
    }

    /// Returns the block's type.
    pub fn get_type(&self) -> (r: BlockKind)
        ensures
            r == self.block_type,
    {
        self.block_type
    }
}

/// Compares two string slices by character content.
fn str_eq(a: &str, b: &str) -> (r: bool)
    ensures
        r == (a@ == b@),
{
    let sa = a.to_owned();
    let sb = b.to_owned();
    sa == sb
}

/// Maps block types to their `id`: the single owner of the registered
/// instances. No two registered types share an identifier.
#[derive(Debug)]
pub struct BlockTypes {
    entries: Vec<BlockKind>,
}

impl BlockTypes {
    /// The registered types, in insertion order.
    pub closed spec fn spec_entries(&self) -> Seq<BlockKind> {
        self.entries@
    }

    /// No two registered types share an identifier.
    pub open spec fn wf(&self) -> bool {
        forall|i: int, j: int|
            #![trigger self.spec_entries()[i], self.spec_entries()[j]]
            0 <= i < j < self.spec_entries().len() ==> self.spec_entries()[i].spec_id()
                != self.spec_entries()[j].spec_id()
    }

    /// Creates a new empty registry.
    pub fn new() -> (r: BlockTypes)
        ensures
            r.wf(),
            r.spec_entries().len() == 0,
    {
        BlockTypes { entries: Vec::new() }
    }

    /// Creates a registry holding all the statically known block types,
    /// retrievable by their `id` with the `get` method.
    pub fn base_types() -> (r: BlockTypes)
        ensures
            r.wf(),
            r.spec_entries() == seq![
                (BlockKind::Standard(StandardType {  })),
                (BlockKind::Rock(RockType {  })),
            ],
    {
        let mut bts = Self::new();
        let first = bts.add(BlockKind::Standard(StandardType {  }));
        proof {
            reveal_strlit("Standard");
            reveal_strlit("Rock");
            assert(("Standard"@).len() == 8);
            assert(("Rock"@).len() == 4);
        }
        let second = bts.add(BlockKind::Rock(RockType {  }));
        proof {
            assert(bts.spec_entries() =~= seq![
                (BlockKind::Standard(StandardType {  })),
                (BlockKind::Rock(RockType {  })),
            ]);
        }
        bts
    }

    /// Returns the registered type with that `id`, or `None` if there is
    /// none.
    pub fn get(&self, id: &str) -> (r: Option<&BlockKind>)
        requires
            self.wf(),
        ensures
            match r {
                Some(t) => self.spec_entries().contains(*t) && t.spec_id() == id@,
                None => forall|i: int|
                    0 <= i < self.spec_entries().len()
                        ==> (#[trigger] self.spec_entries()[i]).spec_id() != id@,
            },
    {
        let n = self.entries.len();
        let mut i: usize = 0;
        while i < n
            invariant
                0 <= i <= n,
                n == self.spec_entries().len(),
                forall|j: int|
                    0 <= j < i ==> (#[trigger] self.spec_entries()[j]).spec_id() != id@,
            decreases n - i,
        {
            if str_eq(self.entries[i].id(), id) {
                proof {
                    assert(self.spec_entries().contains(self.spec_entries()[i as int]));
                }
                return Some(&self.entries[i]);
            }
            i += 1;
        }
        None
    }

    /// Adds a block type, keyed by its `id()`. If another one with the same
    /// id already exists in the registry, the new one replaces it, and the
    /// replaced one is returned.
    pub fn add(&mut self, bt: BlockKind) -> (r: Option<BlockKind>)
        requires
            old(self).wf(),
        ensures
            final(self).wf(),
            match r {
                Some(o) => exists|i: int|
                    0 <= i < old(self).spec_entries().len() && old(self).spec_entries()[i] == o
                        && (#[trigger] o.spec_id()) == bt.spec_id() && final(self).spec_entries()
                        == old(self).spec_entries().update(i, bt),
                None => final(self).spec_entries() == old(self).spec_entries().push(bt) && (
                forall|i: int|
                    0 <= i < old(self).spec_entries().len() ==> (#[trigger] old(
                        self,
                    ).spec_entries()[i]).spec_id() != bt.spec_id()),
            },
    {
        let n = self.entries.len();
        let new_id = bt.id();
        let mut i: usize = 0;
        while i < n
            invariant
                0 <= i <= n,
                *self == *old(self),
                old(self).wf(),
                n == self.spec_entries().len(),
                new_id@ == bt.spec_id(),
                forall|j: int|
                    0 <= j < i ==> (#[trigger] self.spec_entries()[j]).spec_id() != bt.spec_id(),
            decreases n - i,
        {
            if str_eq(self.entries[i].id(), new_id) {
                let o = self.entries[i];
                proof {
                    assert(old(self).spec_entries()[i as int].spec_id() == bt.spec_id());
                }
                self.entries.set(i, bt);
                proof {
                    let pre = old(self).spec_entries();
                    assert(self.spec_entries() =~= pre.update(i as int, bt));
                    assert forall|a: int, b: int|
                        #![trigger self.spec_entries()[a], self.spec_entries()[b]]
                        0 <= a < b < self.spec_entries().len() implies self.spec_entries()[
                        a].spec_id() != self.spec_entries()[b].spec_id() by {
                        if a == i as int {
                            assert(self.spec_entries()[a] == bt);
                            assert(self.spec_entries()[b] == pre[b]);
                            assert(pre[i as int].spec_id() != pre[b].spec_id());
                        } else if b == i as int {
                            assert(self.spec_entries()[b] == bt);
                            assert(self.spec_entries()[a] == pre[a]);
                            assert(pre[a].spec_id() != pre[i as int].spec_id());
                        } else {
                            assert(self.spec_entries()[a] == pre[a]);
                            assert(self.spec_entries()[b] == pre[b]);
                            assert(pre[a].spec_id() != pre[b].spec_id());
                        }
                    }
                }
                return Some(o);
            }
            i += 1;
        }
        let ghost pre = self.spec_entries();
        self.entries.push(bt);
        proof {
            assert(self.spec_entries() =~= pre.push(bt));
            assert forall|a: int, b: int|
                #![trigger self.spec_entries()[a], self.spec_entries()[b]]
                0 <= a < b < self.spec_entries().len() implies self.spec_entries()[a].spec_id()
                != self.spec_entries()[b].spec_id() by {
                if b < pre.len() {
                    assert(pre[a].spec_id() != pre[b].spec_id());
                } else {
                    assert(self.spec_entries()[b] == bt);
                    assert(pre[a].spec_id() != bt.spec_id());
                }
            }
        }
        None
    }
}

} // verus!
