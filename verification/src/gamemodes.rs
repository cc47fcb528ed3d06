//! Game modes: the bookkeeping that decides which piece comes next, built
//! on the canonical-shape cache.

use crate::block::{BlockKind, StandardType};
use crate::piece::Piece;
use crate::rng::sample_below;
use crate::shape::{cells_bounded, shape_equiv};
use crate::shapes::Shapes;
use vstd::prelude::*;

verus! {

/// One weighted entry of a custom mode: pieces of `n_blocks` cells using
/// the block type at index `block_type`, drawn with probability
/// proportional to `weight` (once weights have been accumulated, each
/// holds the running total up to its entry).
#[derive(Clone, Copy, PartialEq, Eq, Structural, Debug)]
pub struct PieceConfiguration {
    pub block_type: usize,
    pub n_blocks: usize,
    pub weight: u32,
}

/// A configuration that takes part in the weighted draw, against `nbt`
/// available block types.
pub open spec fn conf_valid(c: PieceConfiguration, nbt: int) -> bool {
    c.weight > 0 && c.n_blocks > 0 && (c.block_type as int) < nbt
}

/// The sum of the weights of the valid configurations.
pub open spec fn valid_weight_sum(confs: Seq<PieceConfiguration>, nbt: int) -> int
    decreases confs.len(),
{
    if confs.len() == 0 {
        0
    } else {
        valid_weight_sum(confs.drop_last(), nbt) + if conf_valid(confs.last(), nbt) {
            confs.last().weight as int
        } else {
            0
        }
    }
}

/// Sorted by weight, largest first.
pub open spec fn sorted_desc(confs: Seq<PieceConfiguration>) -> bool {
    forall|i: int, j: int|
        #![trigger confs[i], confs[j]]
        0 <= i < j < confs.len() ==> confs[i].weight >= confs[j].weight
}

/// The default configurations: one four-cell entry of weight 1 per block
/// type.
pub open spec fn default_confs(nbt: int) -> Seq<PieceConfiguration> {
    Seq::new(nbt as nat, |i: int| PieceConfiguration { block_type: i as usize, n_blocks: 4, weight: 1u32 })
}

/// Inserting a configuration adds its contribution to the valid-weight sum.
proof fn lemma_sum_insert(s: Seq<PieceConfiguration>, i: int, x: PieceConfiguration, nbt: int)
    requires
        0 <= i <= s.len(),
    ensures
        valid_weight_sum(s.insert(i, x), nbt) == valid_weight_sum(s, nbt) + if conf_valid(x, nbt) {
            x.weight as int
        } else {
            0
        },
    decreases s.len(),
{
    let t = s.insert(i, x);
    s.insert_ensures(i, x);
    if i == s.len() {
        assert(t.drop_last() =~= s);
        assert(t.last() == x);
    } else {
        assert(t.last() == s.last());
        assert(t.drop_last() =~= s.drop_last().insert(i, x));
        lemma_sum_insert(s.drop_last(), i, x, nbt);
    }
}

/// A prefix's valid-weight sum never exceeds the whole sequence's.
proof fn lemma_prefix_sum_le(s: Seq<PieceConfiguration>, i: int, nbt: int)
    requires
        0 <= i <= s.len(),
    ensures
        valid_weight_sum(s.subrange(0, i), nbt) <= valid_weight_sum(s, nbt),
    decreases s.len() - i,
{
    if i == s.len() {
        assert(s.subrange(0, i) =~= s);
    } else {
        lemma_prefix_sum_le(s, i + 1, nbt);
        assert(s.subrange(0, i + 1).drop_last() =~= s.subrange(0, i));
        assert(s.subrange(0, i + 1).last() == s[i]);
    }
}

/// The default configurations are all valid and their weights sum to the
/// number of block types.
proof fn lemma_default_confs_sum(nbt: int)
    requires
        nbt >= 0,
    ensures
        valid_weight_sum(default_confs(nbt), nbt) == nbt,
        forall|i: int|
            0 <= i < nbt ==> conf_valid(#[trigger] default_confs(nbt)[i], nbt),
    decreases nbt,
{
    if nbt > 0 {
        lemma_default_confs_sum(nbt - 1);
        let d = default_confs(nbt);
        let d1 = default_confs(nbt - 1);
        assert(d.drop_last() =~= d1);
        assert(conf_valid(d.last(), nbt));
        assert(valid_weight_sum(d1, nbt) == valid_weight_sum(d1, nbt - 1)) by {
            lemma_sum_nbt_monotone(d1, nbt - 1);
        }
    }
}

/// Raising the number of block types preserves the valid-weight sum of
/// configurations that were already valid.
proof fn lemma_sum_nbt_monotone(s: Seq<PieceConfiguration>, nbt: int)
    requires
        forall|i: int| 0 <= i < s.len() ==> (#[trigger] s[i]).block_type < nbt,
    ensures
        valid_weight_sum(s, nbt + 1) == valid_weight_sum(s, nbt),
    decreases s.len(),
{
    if s.len() > 0 {
        assert(s[s.len() - 1] == s.last());
        lemma_sum_nbt_monotone(s.drop_last(), nbt);
    }
}

/// Inserting an element anywhere adds it to the sequence's multiset.
proof fn lemma_insert_multiset(s: Seq<PieceConfiguration>, i: int, x: PieceConfiguration)
    requires
        0 <= i <= s.len(),
    ensures
        s.insert(i, x).to_multiset() =~= s.to_multiset().insert(x),
{
    let a = s.subrange(0, i);
    let b = s.subrange(i, s.len() as int);
    assert(s.insert(i, x) =~= a.push(x) + b);
    assert(s =~= a + b);
    vstd::seq_lib::lemma_multiset_commutative(a.push(x), b);
    vstd::seq_lib::lemma_multiset_commutative(a, b);
    a.to_multiset_ensures();
}

/// The standard mode: four-cell pieces of the standard block type.
#[derive(Debug)]
pub struct StandardMode {
    shapes: Shapes,
    standard_type: BlockKind,
}

impl StandardMode {
    /// The shape cache is consistent and the stored type is the standard
    /// one.
    pub closed spec fn wf(&self) -> bool {
        self.shapes.wf() && self.standard_type == BlockKind::Standard(StandardType {  })
    }

    /// Shapes of four cells have been generated.
    pub closed spec fn initialized(&self) -> bool {
        self.wf() && self.shapes.spec_max_size() >= 4
    }

    /// The mode's canonical-shape cache.
    pub closed spec fn spec_cache(&self) -> Shapes {
        self.shapes
    }

    /// Creates the mode with a fresh shape cache.
    pub fn new() -> (r: StandardMode)
        ensures
            r.wf(),
    {
        StandardMode {
            shapes: Shapes::new(),
            standard_type: BlockKind::Standard(StandardType {  }),
        }
    }

    /// Generates the shapes the mode draws from.
    pub fn initialize(&mut self)
        requires
            old(self).wf(),
        ensures
            final(self).initialized(),
    {
        self.shapes.gen_until(4);
    }

    /// Builds the next piece: a uniformly random four-cell canonical shape,
    /// randomly rotated, every cell of the standard block type.
    pub fn next_piece(&self, rng: &mut rand::rngs::StdRng) -> (r: Piece)
        requires
            self.initialized(),
        ensures
            r.wf(),
            r.spec_shape()@.len() == 4,
            cells_bounded(r.spec_shape()@, i32::MAX as int),
            exists|i: int|
                0 <= i < self.spec_cache().list_at(4).len() && shape_equiv(
                    r.spec_shape()@,
                    (#[trigger] self.spec_cache().list_at(4)[i])@,
                ),
            forall|i: int|
                0 <= i < r.spec_blocks().len() ==> (#[trigger] r.spec_blocks()[i]).block_type == (
                BlockKind::Standard(StandardType {  })),
    {
        let list = self.shapes.shapes(4);
        let shape = self.shapes.random(4, rng);
        proof {
            let i = choose|i: int|
                0 <= i < self.shapes.list_at(4).len() && shape_equiv(
                    shape@,
                    (#[trigger] self.shapes.list_at(4)[i])@,
                );
            assert((#[trigger] list@[i])@.len() == 4);
            assert(0 <= i < self.spec_cache().list_at(4).len() && shape_equiv(
                shape@,
                (#[trigger] self.spec_cache().list_at(4)[i])@,
            ));
        }
        Piece::uniform(self.standard_type, shape)
    }
}

/// A configurable mode: weighted piece configurations over a caller-chosen
/// list of block types.
#[derive(Debug)]
pub struct CustomMode {
    shapes: Shapes,
    block_types: Vec<BlockKind>,
    configurations: Vec<PieceConfiguration>,
    total_weight: u32,
}

impl CustomMode {
    /// The shape cache is consistent.
    pub closed spec fn wf(&self) -> bool {
        self.shapes.wf()
    }

    /// The stored block types.
    pub closed spec fn spec_block_types(&self) -> Seq<BlockKind> {
        self.block_types@
    }

    /// The stored configurations.
    pub closed spec fn spec_configurations(&self) -> Seq<PieceConfiguration> {
        self.configurations@
    }

    /// The accumulated total weight.
    pub closed spec fn spec_total_weight(&self) -> int {
        self.total_weight as int
    }

    /// The mode's canonical-shape cache.
    pub closed spec fn spec_cache(&self) -> Shapes {
        self.shapes
    }

    /// Every configuration can be served: weights have been accumulated up
    /// to the total, every referenced block type and shape size exists, and
    /// the needed shape lists are generated and non-empty.
    pub closed spec fn ready(&self) -> bool {
        &&& self.shapes.wf()
        &&& self.total_weight >= 1
        &&& self.configurations@.len() >= 1
        &&& (exists|i: int|
            0 <= i < self.configurations@.len() && (#[trigger] self.configurations@[i]).weight
                >= self.total_weight)
        &&& (forall|i: int|
            0 <= i < self.configurations@.len() ==> (#[trigger] self.configurations@[i]).block_type
                < self.block_types@.len())
        &&& (forall|i: int|
            0 <= i < self.configurations@.len() ==> 1 <= (
            #[trigger] self.configurations@[i]).n_blocks <= self.shapes.spec_max_size())
    }

    /// Creates the mode from its block types and raw piece configurations.
    pub fn new(block_types: Vec<BlockKind>, configurations: Vec<PieceConfiguration>) -> (r:
        CustomMode)
        ensures
            r.wf(),
            r.spec_block_types() == block_types@,
            r.spec_configurations() == configurations@,
            r.spec_total_weight() == 0,
    {
        CustomMode { shapes: Shapes::new(), block_types, configurations, total_weight: 0 }
    }

    /// Prepares the mode: an empty block type list falls back to the
    /// standard type, an empty configuration list falls back to one default
    /// entry per block type, the configurations are sorted by weight
    /// (largest first, so the heavier an entry, the earlier it is reached),
    /// the weights of the valid entries are replaced by their running total,
    /// and the needed shape lists are generated.
    #[verifier::rlimit(100)]
    pub fn initialize(&mut self)
        requires
            old(self).wf(),
            forall|i: int|
                0 <= i < old(self).spec_configurations().len() ==> (#[trigger] old(
                    self,
                ).spec_configurations()[i]).n_blocks <= 28,
            old(self).spec_block_types().len() <= 0xffff_ffff,
            valid_weight_sum(
                if old(self).spec_configurations().len() == 0 {
                    default_confs(
                        if old(self).spec_block_types().len() == 0 {
                            1int
                        } else {
                            old(self).spec_block_types().len() as int
                        },
                    )
                } else {
                    old(self).spec_configurations()
                },
                if old(self).spec_block_types().len() == 0 {
                    1int
                } else {
                    old(self).spec_block_types().len() as int
                },
            ) <= 0xffff_ffff,
        ensures
            final(self).wf(),
            final(self).spec_block_types() == if old(self).spec_block_types().len() == 0 {
                seq![(BlockKind::Standard(StandardType {  }))]
            } else {
                old(self).spec_block_types()
            },
            exists|s: Seq<PieceConfiguration>|
                #![trigger s.to_multiset()]
                {
                    let start = if old(self).spec_configurations().len() == 0 {
                        default_confs(final(self).spec_block_types().len() as int)
                    } else {
                        old(self).spec_configurations()
                    };
                    let nbt = final(self).spec_block_types().len() as int;
                    &&& s.to_multiset() == start.to_multiset()
                    &&& sorted_desc(s)
                    &&& final(self).spec_configurations().len() == s.len()
                    &&& (forall|j: int|
                        0 <= j < s.len() && !conf_valid(#[trigger] s[j], nbt)
                            ==> final(self).spec_configurations()[j] == s[j])
                    &&& (forall|j: int|
                        0 <= j < s.len() && conf_valid(#[trigger] s[j], nbt)
                            ==> final(self).spec_configurations()[j] == (PieceConfiguration {
                            block_type: s[j].block_type,
                            n_blocks: s[j].n_blocks,
                            weight: valid_weight_sum(s.subrange(0, j + 1), nbt) as u32,
                        }))
                    &&& final(self).spec_total_weight() == valid_weight_sum(s, nbt)
                },
            (forall|j: int|
                0 <= j < final(self).spec_configurations().len() ==> conf_valid(
                    #[trigger] final(self).spec_configurations()[j],
                    final(self).spec_block_types().len() as int,
                )) && final(self).spec_total_weight() >= 1 ==> final(self).ready(),
    {
        // Default block type.
        if self.block_types.len() == 0 {
            self.block_types.push(BlockKind::Standard(StandardType {  }));
        }
        let nbt = self.block_types.len();
        let ghost gnbt = nbt as int;
        // Default configurations.
        if self.configurations.len() == 0 {
            let mut i: usize = 0;
            while i < nbt
                invariant
                    0 <= i <= nbt,
                    nbt == self.block_types@.len(),
                    gnbt == nbt as int,
                    gnbt >= 1,
                    self.shapes == old(self).shapes,
                    old(self).wf(),
                    old(self).spec_configurations().len() == 0,
                    old(self).spec_block_types().len() <= 0xffff_ffff,
                    old(self).spec_block_types().len() == 0 ==> self.block_types@ == seq![
                        (BlockKind::Standard(StandardType {  })),
                    ],
                    old(self).spec_block_types().len() > 0 ==> self.block_types@ == old(
                        self,
                    ).spec_block_types(),
                    self.configurations@.len() == i,
                    forall|j: int|
                        0 <= j < i ==> self.configurations@[j] == default_confs(nbt as int)[j],
                decreases nbt - i,
            {
                self.configurations.push(
                    PieceConfiguration { block_type: i, n_blocks: 4, weight: 1 },
                );
                i += 1;
            }
            proof {
                assert(self.configurations@ =~= default_confs(nbt as int));
            }
        }
        let ghost start = self.configurations@;
        proof {
            if old(self).spec_configurations().len() == 0 {
                lemma_default_confs_sum(gnbt);
            }
            assert(valid_weight_sum(start, gnbt) <= 0xffff_ffff);
            assert forall|j: int| 0 <= j < start.len() implies (#[trigger] start[j]).n_blocks
                <= 28 by {
                if old(self).spec_configurations().len() == 0 {
                    assert(start[j] == default_confs(gnbt)[j]);
                } else {
                    assert(start[j] == old(self).spec_configurations()[j]);
                }
            }
        }
        // Sort by weight, largest first (insertion sort, stable).
        let m = self.configurations.len();
        let mut sorted_confs: Vec<PieceConfiguration> = Vec::new();
        proof {
            assert(sorted_confs@ =~= start.subrange(0, 0));
        }
        let mut i: usize = 0;
        while i < m
            invariant
                0 <= i <= m,
                m == self.configurations@.len(),
                start == self.configurations@,
                gnbt == self.block_types@.len(),
                gnbt >= 1,
                old(self).wf(),
                self.shapes == old(self).shapes,
                valid_weight_sum(start, gnbt) <= 0xffff_ffff,
                old(self).spec_configurations().len() == 0 ==> start == default_confs(gnbt),
                old(self).spec_configurations().len() > 0 ==> start == old(
                    self,
                ).spec_configurations(),
                old(self).spec_block_types().len() == 0 ==> self.block_types@ == seq![
                    (BlockKind::Standard(StandardType {  })),
                ],
                old(self).spec_block_types().len() > 0 ==> self.block_types@ == old(
                    self,
                ).spec_block_types(),
                forall|j: int| 0 <= j < start.len() ==> (#[trigger] start[j]).n_blocks <= 28,
                sorted_confs@.len() == i,
                sorted_desc(sorted_confs@),
                forall|j: int| 0 <= j < i ==> start.contains(#[trigger] sorted_confs@[j]),
                valid_weight_sum(sorted_confs@, gnbt) == valid_weight_sum(
                    start.subrange(0, i as int),
                    gnbt,
                ),
                sorted_confs@.to_multiset() == start.subrange(0, i as int).to_multiset(),
            decreases m - i,
        {
            let c = self.configurations[i];
            let mut p: usize = 0;
            while p < i && sorted_confs[p].weight >= c.weight
                invariant
                    0 <= p <= i,
                    sorted_confs@.len() == i,
                    sorted_desc(sorted_confs@),
                    forall|j: int| 0 <= j < p ==> (#[trigger] sorted_confs@[j]).weight >= c.weight,
                decreases i - p,
            {
                p += 1;
            }
            let ghost pre = sorted_confs@;
            sorted_confs.insert(p, c);
            proof {
                pre.insert_ensures(p as int, c);
                assert(start.contains(start[i as int]));
                // Order is kept: everything before the insertion point is
                // at least as heavy, everything after strictly lighter.
                assert forall|a: int, b: int|
                    #![trigger sorted_confs@[a], sorted_confs@[b]]
                    0 <= a < b < sorted_confs@.len() implies sorted_confs@[a].weight
                    >= sorted_confs@[b].weight by {
                    if a < p && b < p {
                        assert(sorted_confs@[a] == pre[a]);
                        assert(sorted_confs@[b] == pre[b]);
                    } else if a < p && b == p {
                        assert(sorted_confs@[a] == pre[a]);
                    } else if a == p && b > p {
                        assert(sorted_confs@[b] == pre[b - 1]);
                        assert(p < i ==> pre[p as int].weight < c.weight);
                        if b - 1 > p {
                            assert(pre[p as int].weight >= pre[b - 1].weight);
                        }
                    } else if a < p && b > p {
                        assert(sorted_confs@[a] == pre[a]);
                        assert(sorted_confs@[b] == pre[b - 1]);
                    } else {
                        assert(sorted_confs@[a] == pre[a - 1]);
                        assert(sorted_confs@[b] == pre[b - 1]);
                    }
                }
                assert forall|j: int| 0 <= j < i + 1 implies start.contains(
                    #[trigger] sorted_confs@[j],
                ) by {
                    if j < p {
                        assert(sorted_confs@[j] == pre[j]);
                    } else if j == p {
                        assert(sorted_confs@[j] == c);
                    } else {
                        assert(sorted_confs@[j] == pre[j - 1]);
                    }
                }
                lemma_sum_insert(pre, p as int, c, gnbt);
                assert(start.subrange(0, i + 1).drop_last() =~= start.subrange(0, i as int));
                assert(start.subrange(0, i + 1).last() == start[i as int]);
                assert(sorted_confs@.to_multiset() =~= start.subrange(0, i + 1).to_multiset()) by {
                    assert(sorted_confs@ =~= pre.insert(p as int, c));
                    lemma_insert_multiset(pre, p as int, c);
                    start.subrange(0, i as int).to_multiset_ensures();
                    assert(start.subrange(0, i + 1) =~= start.subrange(0, i as int).push(
                        start[i as int],
                    ));
                }
            }
            i += 1;
        }
        proof {
            assert(start.subrange(0, m as int) =~= start);
        }
        self.configurations = sorted_confs;
        let ghost s = self.configurations@;
        let ghost carried = {
            &&& s.to_multiset() == start.to_multiset()
            &&& sorted_desc(s)
            &&& s.len() == m
            &&& gnbt >= 1
            &&& valid_weight_sum(s, gnbt) == valid_weight_sum(start, gnbt)
            &&& (forall|j: int| 0 <= j < s.len() ==> start.contains(#[trigger] s[j]))
            &&& (forall|j: int| 0 <= j < start.len() ==> (#[trigger] start[j]).n_blocks <= 28)
            &&& (old(self).spec_configurations().len() == 0 ==> start == default_confs(gnbt))
            &&& (old(self).spec_configurations().len() > 0 ==> start == old(
                self,
            ).spec_configurations())
            &&& (old(self).spec_block_types().len() == 0 ==> self.block_types@ == seq![
                (BlockKind::Standard(StandardType {  })),
            ])
            &&& (old(self).spec_block_types().len() > 0 ==> self.block_types@ == old(
                self,
            ).spec_block_types())
            &&& self.shapes == old(self).shapes
            &&& old(self).wf()
        };
        proof {
            assert(carried);
        }
        // Accumulate the weights of the valid configurations.
        let mut total: u32 = 0;
        let mut j: usize = 0;
        while j < m
            invariant
                0 <= j <= m,
                m == s.len(),
                gnbt == self.block_types@.len(),
                nbt as int == gnbt,
                gnbt >= 1,
                carried,
                carried == {
                    &&& s.to_multiset() == start.to_multiset()
                    &&& sorted_desc(s)
                    &&& s.len() == m
                    &&& gnbt >= 1
                    &&& valid_weight_sum(s, gnbt) == valid_weight_sum(start, gnbt)
                    &&& (forall|j2: int| 0 <= j2 < s.len() ==> start.contains(#[trigger] s[j2]))
                    &&& (forall|j2: int|
                        0 <= j2 < start.len() ==> (#[trigger] start[j2]).n_blocks <= 28)
                    &&& (old(self).spec_configurations().len() == 0 ==> start == default_confs(
                        gnbt,
                    ))
                    &&& (old(self).spec_configurations().len() > 0 ==> start == old(
                        self,
                    ).spec_configurations())
                    &&& (old(self).spec_block_types().len() == 0 ==> self.block_types@ == seq![
                        (BlockKind::Standard(StandardType {  })),
                    ])
                    &&& (old(self).spec_block_types().len() > 0 ==> self.block_types@ == old(
                        self,
                    ).spec_block_types())
                    &&& self.shapes == old(self).shapes
                    &&& old(self).wf()
                },
                self.configurations@.len() == m,
                valid_weight_sum(s, gnbt) <= 0xffff_ffff,
                total as int == valid_weight_sum(s.subrange(0, j as int), gnbt),
                forall|j2: int| j <= j2 < m ==> self.configurations@[j2] == s[j2],
                forall|j2: int|
                    0 <= j2 < j && !conf_valid(#[trigger] s[j2], gnbt)
                        ==> self.configurations@[j2] == s[j2],
                forall|j2: int|
                    0 <= j2 < j && conf_valid(#[trigger] s[j2], gnbt) ==> self.configurations@[j2]
                        == (PieceConfiguration {
                        block_type: s[j2].block_type,
                        n_blocks: s[j2].n_blocks,
                        weight: valid_weight_sum(s.subrange(0, j2 + 1), gnbt) as u32,
                    }),
            decreases m - j,
        {
            let c = self.configurations[j];
            proof {
                assert(c == s[j as int]);
                assert(s.subrange(0, j + 1).drop_last() =~= s.subrange(0, j as int));
                assert(s.subrange(0, j + 1).last() == s[j as int]);
                lemma_prefix_sum_le(s, j + 1, gnbt);
            }
            if c.weight > 0 && c.n_blocks > 0 && c.block_type < nbt {
                total = total + c.weight;
                self.configurations.set(
                    j,
                    PieceConfiguration { block_type: c.block_type, n_blocks: c.n_blocks, weight: total },
                );
            }
            j += 1;
        }
        proof {
            assert(s.subrange(0, m as int) =~= s);
        }
        self.total_weight = total;
        let ghost done = {
            &&& self.configurations@.len() == m
            &&& (forall|j2: int|
                0 <= j2 < m && !conf_valid(#[trigger] s[j2], gnbt) ==> self.configurations@[j2]
                    == s[j2])
            &&& (forall|j2: int|
                0 <= j2 < m && conf_valid(#[trigger] s[j2], gnbt) ==> self.configurations@[j2]
                    == (PieceConfiguration {
                    block_type: s[j2].block_type,
                    n_blocks: s[j2].n_blocks,
                    weight: valid_weight_sum(s.subrange(0, j2 + 1), gnbt) as u32,
                }))
            &&& self.total_weight as int == valid_weight_sum(s, gnbt)
            &&& valid_weight_sum(s, gnbt) <= 0xffff_ffff
        };
        proof {
            assert(done);
            assert forall|i2: int| 0 <= i2 < m implies (
            #[trigger] self.configurations@[i2]).n_blocks <= 28 by {
                assert(start.contains(s[i2]));
                let w = choose|w: int| 0 <= w < start.len() && start[w] == s[i2];
                assert(start[w].n_blocks <= 28);
                if conf_valid(s[i2], gnbt) {
                    assert(self.configurations@[i2].n_blocks == s[i2].n_blocks);
                }
            }
        }
        // Generate the shapes every configuration can ask for.
        let mut maxb: usize = 4;
        let mut j2: usize = 0;
        while j2 < m
            invariant
                0 <= j2 <= m,
                m == self.configurations@.len(),
                gnbt == self.block_types@.len(),
                4 <= maxb <= 28,
                carried,
                carried == {
                    &&& s.to_multiset() == start.to_multiset()
                    &&& sorted_desc(s)
                    &&& s.len() == m
                    &&& gnbt >= 1
                    &&& valid_weight_sum(s, gnbt) == valid_weight_sum(start, gnbt)
                    &&& (forall|j3: int| 0 <= j3 < s.len() ==> start.contains(#[trigger] s[j3]))
                    &&& (forall|j3: int|
                        0 <= j3 < start.len() ==> (#[trigger] start[j3]).n_blocks <= 28)
                    &&& (old(self).spec_configurations().len() == 0 ==> start == default_confs(
                        gnbt,
                    ))
                    &&& (old(self).spec_configurations().len() > 0 ==> start == old(
                        self,
                    ).spec_configurations())
                    &&& (old(self).spec_block_types().len() == 0 ==> self.block_types@ == seq![
                        (BlockKind::Standard(StandardType {  })),
                    ])
                    &&& (old(self).spec_block_types().len() > 0 ==> self.block_types@ == old(
                        self,
                    ).spec_block_types())
                    &&& self.shapes == old(self).shapes
                    &&& old(self).wf()
                },
                done,
                done == {
                    &&& self.configurations@.len() == m
                    &&& (forall|j3: int|
                        0 <= j3 < m && !conf_valid(#[trigger] s[j3], gnbt)
                            ==> self.configurations@[j3] == s[j3])
                    &&& (forall|j3: int|
                        0 <= j3 < m && conf_valid(#[trigger] s[j3], gnbt)
                            ==> self.configurations@[j3] == (PieceConfiguration {
                            block_type: s[j3].block_type,
                            n_blocks: s[j3].n_blocks,
                            weight: valid_weight_sum(s.subrange(0, j3 + 1), gnbt) as u32,
                        }))
                    &&& self.total_weight as int == valid_weight_sum(s, gnbt)
                    &&& valid_weight_sum(s, gnbt) <= 0xffff_ffff
                },
                forall|i2: int| 0 <= i2 < m ==> (#[trigger] self.configurations@[i2]).n_blocks <= 28,
                forall|i2: int|
                    0 <= i2 < j2 ==> (#[trigger] self.configurations@[i2]).n_blocks <= maxb,
            decreases m - j2,
        {
            if self.configurations[j2].n_blocks > maxb {
                maxb = self.configurations[j2].n_blocks;
            }
            j2 += 1;
        }
        self.shapes.gen_until(maxb);
        proof {
            // The sorted sequence witnesses the description of the result.
            assert(self.spec_configurations().len() == s.len());
            // When every resulting configuration is valid and some weight was
            // accumulated, the mode is ready: the last configuration's
            // cumulative weight is the total.
            if (forall|j3: int|
                0 <= j3 < self.spec_configurations().len() ==> conf_valid(
                    #[trigger] self.spec_configurations()[j3],
                    self.spec_block_types().len() as int,
                )) && self.spec_total_weight() >= 1 {
                assert(m >= 1) by {
                    if m == 0 {
                        assert(s.subrange(0, 0) =~= s);
                    }
                }
                assert forall|j3: int| 0 <= j3 < m implies conf_valid(
                    #[trigger] s[j3],
                    gnbt,
                ) by {
                    if !conf_valid(s[j3], gnbt) {
                        assert(self.spec_configurations()[j3] == s[j3]);
                        assert(conf_valid(self.spec_configurations()[j3], gnbt));
                    }
                }
                assert(conf_valid(s[m - 1], gnbt));
                assert(s.subrange(0, m as int) =~= s);
                assert(self.spec_configurations()[m - 1].weight == valid_weight_sum(
                    s,
                    gnbt,
                ) as u32);
                assert((#[trigger] self.spec_configurations()[m - 1]).weight
                    >= self.total_weight);
                assert forall|j3: int| 0 <= j3 < m implies 1 <= (
                #[trigger] self.spec_configurations()[j3]).n_blocks
                    <= self.shapes.spec_max_size() by {
                    assert(self.configurations@[j3].n_blocks <= maxb);
                }
                assert(self.ready());
            }
        }
    }

    /// Picks the configuration serving the sampled ticket `n`: the first
    /// one whose (cumulative) weight exceeds it.
    fn next_configuration(&self, n: u32) -> (r: &PieceConfiguration)
        requires
            exists|i: int|
                0 <= i < self.spec_configurations().len() && n < (
                #[trigger] self.spec_configurations()[i]).weight,
        ensures
            exists|i: int|
                0 <= i < self.spec_configurations().len() && *r == (
                #[trigger] self.spec_configurations()[i]) && n < r.weight,
    {
        let m = self.configurations.len();
        let mut i: usize = 0;
        while n >= self.configurations[i].weight
            invariant
                0 <= i < m,
                m == self.spec_configurations().len(),
                exists|j: int|
                    i <= j < m && n < (#[trigger] self.spec_configurations()[j]).weight,
            decreases m - i,
        {
            proof {
                let j = choose|j: int|
                    i <= j < m && n < (#[trigger] self.spec_configurations()[j]).weight;
                assert(j != i);
            }
            i += 1;
        }
        &self.configurations[i]
    }

    /// Builds the next piece: draws a uniform ticket below the total
    /// weight, picks the configuration serving it, then a random shape of
    /// that configuration's size, all cells sharing the configuration's
    /// block type.
    pub fn next_piece(&self, rng: &mut rand::rngs::StdRng) -> (r: Piece)
        requires
            self.ready(),
        ensures
            r.wf(),
            cells_bounded(r.spec_shape()@, i32::MAX as int),
            exists|ci: int, i: int|
                #![trigger self.spec_cache().list_at(self.spec_configurations()[ci].n_blocks as int)[i]]
                0 <= ci < self.spec_configurations().len() && 0 <= i < self.spec_cache().list_at(
                    self.spec_configurations()[ci].n_blocks as int,
                ).len() && r.spec_shape()@.len() == self.spec_configurations()[ci].n_blocks
                    && shape_equiv(
                    r.spec_shape()@,
                    self.spec_cache().list_at(self.spec_configurations()[ci].n_blocks as int)[i]@,
                ),
            forall|i: int, j: int|
                0 <= i < r.spec_blocks().len() && 0 <= j < r.spec_blocks().len() ==> (
                #[trigger] r.spec_blocks()[i]).block_type == (
                #[trigger] r.spec_blocks()[j]).block_type,
    {
        let n32 = sample_below(rng, self.total_weight as usize) as u32;
        proof {
            let i0 = choose|i: int|
                0 <= i < self.configurations@.len() && (#[trigger] self.configurations@[i]).weight
                    >= self.total_weight;
            assert(n32 < (#[trigger] self.spec_configurations()[i0]).weight);
        }
        let conf = self.next_configuration(n32);
        let bt_idx = conf.block_type;
        let nb = conf.n_blocks;
        let ghost ci = choose|i: int|
            0 <= i < self.spec_configurations().len() && *conf == (
            #[trigger] self.spec_configurations()[i]) && n32 < conf.weight;
        let list = self.shapes.shapes(nb);
        let shape = self.shapes.random(nb, rng);
        proof {
            let i = choose|i: int|
                0 <= i < self.shapes.list_at(nb as int).len() && shape_equiv(
                    shape@,
                    (#[trigger] self.shapes.list_at(nb as int)[i])@,
                );
            assert((#[trigger] list@[i])@.len() == nb);
            assert(self.spec_configurations()[ci].n_blocks == nb);
            assert(0 <= ci < self.spec_configurations().len() && 0 <= i
                < self.spec_cache().list_at(self.spec_configurations()[ci].n_blocks as int).len()
                && shape@.len() == self.spec_configurations()[ci].n_blocks && shape_equiv(
                shape@,
                (#[trigger] self.spec_cache().list_at(
                    self.spec_configurations()[ci].n_blocks as int,
                )[i])@,
            ));
        }
        Piece::uniform(self.block_types[bt_idx], shape)
    }
}

} // verus!
