//! The shape of a buddy allocator: which pair was split from which node, and which
//! halves are in use.

use vstd::prelude::*;
use vstd::arithmetic::power2::{lemma_pow2_pos, lemma_pow2_unfold, pow2};
use crate::align::{lemma_aligned_halves, lemma_double_power_of_two, spec_is_power_of_two};
use crate::buddy::{half_offset, put, spec_node_index, spec_node_pair, spec_node_side, PairCore, Side, Use};

verus! {

/// What tells one live block of a buddy allocator from another: its size class and
/// the index of its node in the class.
pub struct BuddyKey {
    pub class: int,
    pub index: usize,
}

/// What is known of a chunk: its size, and the pair that holds its two halves.
pub struct ChunkInfo {
    /// Size of the chunk in bytes.
    pub size: u64,
    /// The class of the pair that holds the two halves of the chunk.
    pub root_class: int,
    /// The index of that pair in its class.
    pub root_pair: int,
}

/// The pairs of every size class, and the chunks that they lie in.
///
/// The halves of a pair of class `s` have `unit * 2^s` bytes. A pair either holds the
/// two halves of a chunk, or the two halves of a node of the next larger class, which
/// is then marked as split into that pair.
pub struct Tree {
    /// Size of the halves of the pairs of class 0.
    pub unit: u64,
    /// The pairs of each class.
    pub classes: Seq<Seq<Option<PairCore>>>,
    /// The chunks.
    pub chunks: Seq<Option<ChunkInfo>>,
}

impl Tree {
    /// Size of the halves of the pairs of class `class`.
    pub open spec fn class_size(self, class: int) -> int {
        self.unit * pow2(class as nat)
    }

    /// Whether the slot `pair` of the class `class` holds a pair.
    pub open spec fn occ(self, class: int, pair: int) -> bool {
        &&& 0 <= class < self.classes.len()
        &&& 0 <= pair < self.classes[class].len()
        &&& self.classes[class][pair] is Some
    }

    /// Whether the slot `pair` of the class `class` holds a pair; the same as `occ`,
    /// written out where it is used.
    #[verifier::inline]
    pub open spec fn present(self, class: int, pair: int) -> bool {
        &&& 0 <= class < self.classes.len()
        &&& 0 <= pair < self.classes[class].len()
        &&& self.classes[class][pair] is Some
    }

    /// The pair in the slot `pair` of the class `class`.
    pub open spec fn pair(self, class: int, pair: int) -> PairCore {
        self.classes[class][pair]->0
    }

    /// Whether the slot `chunk` holds a chunk.
    pub open spec fn chunk_occ(self, chunk: int) -> bool {
        0 <= chunk < self.chunks.len() && self.chunks[chunk] is Some
    }

    /// Whether the class `class` holds a pair that has a free half.
    pub open spec fn has_free(self, class: int) -> bool {
        exists|pair: int| #[trigger]
            self.occ(class, pair) && (self.pair(class, pair).left is Free || self.pair(
                class,
                pair,
            ).right is Free)
    }

    /// Whether the node with index `index` of the class `class` is a block that was
    /// handed out.
    pub open spec fn held(self, class: int, index: usize) -> bool {
        self.occ(class, spec_node_pair(index) as int) && self.pair(
            class,
            spec_node_pair(index) as int,
        ).usage(spec_node_side(index)) == Use::Held
    }

    /// Whether the half `side` of a pair is split into the pair `child` of the next
    /// smaller class, which names the half as what it was split from.
    pub open spec fn child_ok(self, class: int, pair: int, side: Side) -> bool {
        match self.pair(class, pair).usage(side) {
            Use::Split(child) => {
                &&& class >= 1
                &&& self.present(class - 1, child as int)
                &&& self.pair(class - 1, child as int).parent == Some(
                    spec_node_index(pair as usize, side) as usize,
                )
            },
            _ => true,
        }
    }

    /// Whether a pair lies within its chunk, at the place of the node that it was split
    /// from, or at the start of a chunk of twice the size of its halves.
    pub open spec fn pair_ok(self, class: int, pair: int) -> bool {
        let core = self.pair(class, pair);
        &&& self.chunk_occ(core.chunk as int)
        &&& core.offset + 2 * self.class_size(class) <= self.chunks[core.chunk as int]->0.size
        &&& pair <= usize::MAX / 2
        &&& match core.parent {
            Some(node) => {
                let parent = spec_node_pair(node) as int;
                &&& self.present(class + 1, parent)
                &&& self.pair(class + 1, parent).usage(spec_node_side(node)) == Use::Split(
                    pair as usize,
                )
                &&& self.pair(class + 1, parent).chunk == core.chunk
                &&& core.offset == half_offset(
                    self.pair(class + 1, parent).offset,
                    spec_node_side(node),
                    self.class_size(class + 1) as u64,
                )
            },
            None => {
                let chunk = self.chunks[core.chunk as int]->0;
                &&& core.offset == 0
                &&& chunk.size == 2 * self.class_size(class)
                &&& chunk.root_class == class
                &&& chunk.root_pair == pair
            },
        }
        &&& self.child_ok(class, pair, Side::Left)
        &&& self.child_ok(class, pair, Side::Right)
        &&& !(core.left is Free && core.right is Free)
    }

    /// Whether the two halves of a chunk are held by the pair that the chunk names.
    pub open spec fn chunk_ok(self, chunk: int) -> bool {
        let info = self.chunks[chunk]->0;
        &&& self.present(info.root_class, info.root_pair)
        &&& self.pair(info.root_class, info.root_pair).parent is None
        &&& self.pair(info.root_class, info.root_pair).chunk == chunk
    }

    /// Whether the class sizes fit: a chunk of the largest class has at most
    /// `u64::MAX` bytes.
    pub open spec fn sizes_fit(self) -> bool {
        self.unit >= 1 && self.unit * pow2(self.classes.len()) <= u64::MAX
    }

    /// The invariant of the tree.
    #[verifier::opaque]
    pub open spec fn wf(self) -> bool {
        &&& self.sizes_fit()
        &&& forall|class: int, pair: int| #[trigger]
            self.occ(class, pair) ==> self.pair_ok(class, pair)
        &&& forall|chunk: int| #[trigger] self.chunk_occ(chunk) ==> self.chunk_ok(chunk)
    }

    /// The tree in which the half `side` of a pair is used for `usage`.
    pub open spec fn with_usage(self, class: int, pair: int, side: Side, usage: Use) -> Tree {
        Tree {
            classes: self.classes.update(
                class,
                self.classes[class].update(
                    pair,
                    Some(self.pair(class, pair).with_usage(side, usage)),
                ),
            ),
            ..self
        }
    }

    /// A half that is free can be handed out, and a half that was handed out can
    /// become free.
    #[verifier::rlimit(80)]
    #[verifier::spinoff_prover]
    pub proof fn lemma_with_usage(self, class: int, pair: int, side: Side, usage: Use)
        requires
            self.wf(),
            self.occ(class, pair),
            !(self.pair(class, pair).usage(side) is Split),
            !(usage is Split),
            usage is Free ==> !(self.pair(class, pair).usage(side.other()) is Free),
        ensures
            self.with_usage(class, pair, side, usage).wf(),
    {
        reveal(Tree::wf);
        let after = self.with_usage(class, pair, side, usage);
        assert forall|c: int, p: int| #[trigger] after.occ(c, p) implies after.pair_ok(c, p) by {
            assert(self.occ(c, p));
            assert(self.pair_ok(c, p));
            if c == class && p == pair {
                assert(after.child_ok(c, p, side));
                assert(after.child_ok(c, p, side.other()));
            } else {
                assert(after.pair(c, p) == self.pair(c, p));
            }
        }
        assert forall|chunk: int| #[trigger] after.chunk_occ(chunk) implies after.chunk_ok(
            chunk,
        ) by {
            assert(self.chunk_occ(chunk));
            assert(self.chunk_ok(chunk));
        }
    }
}

impl Tree {
    /// The tree with one more class, which holds no pair.
    pub open spec fn extended(self) -> Tree {
        Tree { classes: self.classes.push(Seq::empty()), ..self }
    }

    /// A class can be added as long as its chunks are not too large.
    #[verifier::rlimit(80)]
    #[verifier::spinoff_prover]
    pub proof fn lemma_extended(self)
        requires
            self.wf(),
            self.unit * pow2((self.classes.len() + 1) as nat) <= u64::MAX,
        ensures
            self.extended().wf(),
    {
        reveal(Tree::wf);
        let after = self.extended();
        assert forall|c: int, p: int| #[trigger] after.occ(c, p) implies after.pair_ok(c, p) by {
            assert(self.occ(c, p));
            assert(self.pair_ok(c, p));
        }
        assert forall|chunk: int| #[trigger] after.chunk_occ(chunk) implies after.chunk_ok(
            chunk,
        ) by {
            assert(self.chunk_occ(chunk));
            assert(self.chunk_ok(chunk));
        }
    }

    /// The tree with a new chunk in the slot `chunk`, whose two halves are a new pair
    /// in the slot `pair` of the class `class`, the left half handed out.
    pub open spec fn with_root(self, class: int, pair: int, chunk: int) -> Tree {
        Tree {
            classes: self.classes.update(
                class,
                put(
                    self.classes[class],
                    pair,
                    PairCore {
                        chunk: chunk as usize,
                        offset: 0,
                        parent: None,
                        left: Use::Held,
                        right: Use::Free,
                    },
                ),
            ),
            chunks: put(
                self.chunks,
                chunk,
                ChunkInfo {
                    size: (2 * self.class_size(class)) as u64,
                    root_class: class,
                    root_pair: pair,
                },
            ),
            ..self
        }
    }

    /// A chunk can be added with its two halves.
    #[verifier::rlimit(80)]
    #[verifier::spinoff_prover]
    pub proof fn lemma_with_root(self, class: int, pair: int, chunk: int)
        requires
            self.wf(),
            0 <= class < self.classes.len(),
            0 <= pair <= self.classes[class].len(),
            pair < self.classes[class].len() ==> self.classes[class][pair] is None,
            pair <= usize::MAX / 2,
            0 <= chunk <= self.chunks.len(),
            chunk < self.chunks.len() ==> self.chunks[chunk] is None,
            chunk <= usize::MAX,
        ensures
            self.with_root(class, pair, chunk).wf(),
            2 * self.class_size(class) <= u64::MAX,
    {
        reveal(Tree::wf);
        self.lemma_class_sizes(class);
        let after = self.with_root(class, pair, chunk);
        assert forall|c: int, p: int| #[trigger] after.occ(c, p) implies after.pair_ok(c, p) by {
            if c == class && p == pair {
                assert(after.child_ok(c, p, Side::Left));
                assert(after.child_ok(c, p, Side::Right));
            } else {
                assert(self.occ(c, p));
                assert(self.pair_ok(c, p));
                assert(after.pair(c, p) == self.pair(c, p));
                assert(after.child_ok(c, p, Side::Left));
                assert(after.child_ok(c, p, Side::Right));
            }
        }
        assert forall|k: int| #[trigger] after.chunk_occ(k) implies after.chunk_ok(k) by {
            if k != chunk {
                assert(self.chunk_occ(k));
                assert(self.chunk_ok(k));
            }
        }
    }

    /// The class sizes of a well-formed tree fit.
    pub proof fn lemma_sizes_fit(self)
        requires
            self.wf(),
        ensures
            self.sizes_fit(),
    {
        reveal(Tree::wf);
    }

    /// All offsets of a class are such that a half can be added to them.
    pub proof fn lemma_offsets_fit(self, class: int)
        requires
            self.wf(),
            0 <= class < self.classes.len(),
        ensures
            forall|pair: int|
                0 <= pair < self.classes[class].len()
                    ==> match #[trigger] self.classes[class][pair] {
                    Some(core) => core.offset + 2 * self.class_size(class) <= u64::MAX,
                    None => true,
                },
    {
        reveal(Tree::wf);
        assert forall|pair: int| 0 <= pair < self.classes[class].len()
            implies match #[trigger] self.classes[class][pair] {
            Some(core) => core.offset + 2 * self.class_size(class) <= u64::MAX,
            None => true,
        } by {
            if self.classes[class][pair] is Some {
                assert(self.occ(class, pair));
                assert(self.pair_ok(class, pair));
            }
        }
    }

    /// The sizes of the classes: each is twice the one before, and a chunk of any
    /// class fits.
    pub proof fn lemma_class_sizes(self, class: int)
        requires
            self.sizes_fit(),
            0 <= class < self.classes.len(),
        ensures
            self.class_size(class + 1) == 2 * self.class_size(class),
            1 <= self.class_size(class),
            2 * self.class_size(class) <= u64::MAX,
        decreases self.classes.len() - class,
    {
        lemma_pow2_unfold((class + 1) as nat);
        lemma_pow2_pos(class as nat);
        assert(self.unit * (2 * pow2(class as nat)) == 2 * (self.unit * pow2(class as nat)))
            by (nonlinear_arith);
        assert(self.unit * pow2(class as nat) >= 1) by (nonlinear_arith)
            requires
                self.unit >= 1,
                pow2(class as nat) >= 1,
        ;
        if class + 1 < self.classes.len() {
            self.lemma_class_sizes(class + 1);
        }
    }

    /// The tree in which the node `side` of a pair of the class `class`, which was
    /// handed out, is split into a new pair in the slot `child` of the next smaller
    /// class, the left half of which is handed out in its place.
    pub open spec fn with_split(self, class: int, pair: int, side: Side, child: int) -> Tree {
        let parent = self.pair(class, pair);
        Tree {
            classes: self.classes.update(
                class,
                self.classes[class].update(
                    pair,
                    Some(parent.with_usage(side, Use::Split(child as usize))),
                ),
            ).update(
                class - 1,
                put(
                    self.classes[class - 1],
                    child,
                    PairCore {
                        chunk: parent.chunk,
                        offset: half_offset(parent.offset, side, self.class_size(class) as u64) as u64,
                        parent: Some(spec_node_index(pair as usize, side) as usize),
                        left: Use::Held,
                        right: Use::Free,
                    },
                ),
            ),
            ..self
        }
    }

    /// A node that was handed out can be split.
    #[verifier::rlimit(80)]
    #[verifier::spinoff_prover]
    pub proof fn lemma_with_split(self, class: int, pair: int, side: Side, child: int)
        requires
            self.wf(),
            class >= 1,
            self.occ(class, pair),
            self.pair(class, pair).usage(side) == Use::Held,
            0 <= child <= self.classes[class - 1].len(),
            child < self.classes[class - 1].len() ==> self.classes[class - 1][child] is None,
            child <= usize::MAX / 2,
        ensures
            self.with_split(class, pair, side, child).wf(),
    {
        reveal(Tree::wf);
        self.lemma_class_sizes(class - 1);
        self.lemma_class_sizes(class);
        let after = self.with_split(class, pair, side, child);
        assert(self.pair_ok(class, pair));
        assert forall|c: int, p: int| #[trigger] after.occ(c, p) implies after.pair_ok(c, p) by {
            if c == class - 1 && p == child {
                assert(after.child_ok(c, p, Side::Left));
                assert(after.child_ok(c, p, Side::Right));
            } else {
                assert(self.occ(c, p));
                assert(self.pair_ok(c, p));
                if c == class && p == pair {
                    assert(after.child_ok(c, p, side));
                    assert(after.child_ok(c, p, side.other()));
                } else {
                    assert(after.pair(c, p) == self.pair(c, p));
                    assert(after.child_ok(c, p, Side::Left));
                    assert(after.child_ok(c, p, Side::Right));
                }
            }
        }
        assert forall|k: int| #[trigger] after.chunk_occ(k) implies after.chunk_ok(k) by {
            assert(self.chunk_occ(k));
            assert(self.chunk_ok(k));
        }
    }

    /// The tree without the pair in the slot `pair` of the class `class`, the node
    /// that it was split from handed out in its place.
    pub open spec fn with_joined(self, class: int, pair: int) -> Tree {
        let node = self.pair(class, pair).parent->0;
        let parent = spec_node_pair(node) as int;
        Tree {
            classes: self.classes.update(class, self.classes[class].update(pair, None)).update(
                class + 1,
                self.classes[class + 1].update(
                    parent,
                    Some(
                        self.pair(class + 1, parent).with_usage(spec_node_side(node), Use::Held),
                    ),
                ),
            ),
            ..self
        }
    }

    /// A pair of which no half is split can be joined to the node that it was split
    /// from.
    #[verifier::rlimit(80)]
    #[verifier::spinoff_prover]
    pub proof fn lemma_with_joined(self, class: int, pair: int)
        requires
            self.wf(),
            self.occ(class, pair),
            self.pair(class, pair).parent is Some,
            !(self.pair(class, pair).left is Split),
            !(self.pair(class, pair).right is Split),
        ensures
            self.with_joined(class, pair).wf(),
            self.occ(class + 1, spec_node_pair(self.pair(class, pair).parent->0) as int),
            self.pair(class + 1, spec_node_pair(self.pair(class, pair).parent->0) as int).usage(
                spec_node_side(self.pair(class, pair).parent->0),
            ) == Use::Split(pair as usize),
    {
        reveal(Tree::wf);
        let after = self.with_joined(class, pair);
        let node = self.pair(class, pair).parent->0;
        let parent = spec_node_pair(node) as int;
        let side = spec_node_side(node);
        assert(self.pair_ok(class, pair));
        assert(self.occ(class + 1, parent));
        assert(self.pair_ok(class + 1, parent));
        assert forall|c: int, p: int| #[trigger] after.occ(c, p) implies after.pair_ok(c, p) by {
            assert(self.occ(c, p));
            assert(self.pair_ok(c, p));
            if c == class + 1 && p == parent {
                assert(after.child_ok(c, p, side));
                assert(after.child_ok(c, p, side.other()));
            } else {
                assert(after.pair(c, p) == self.pair(c, p));
                assert(self.child_ok(c, p, Side::Left));
                assert(self.child_ok(c, p, Side::Right));
                assert(after.child_ok(c, p, Side::Left));
                assert(after.child_ok(c, p, Side::Right));
            }
        }
        assert forall|k: int| #[trigger] after.chunk_occ(k) implies after.chunk_ok(k) by {
            assert(self.chunk_occ(k));
            assert(self.chunk_ok(k));
        }
    }

    /// A pair that lies in a chunk whose two halves are not split is the pair of those
    /// two halves.
    pub proof fn lemma_only_root(self, class: int, pair: int)
        requires
            self.wf(),
            self.occ(class, pair),
            ({
                let info = self.chunks[self.pair(class, pair).chunk as int]->0;
                let root = self.pair(info.root_class, info.root_pair);
                !(root.left is Split) && !(root.right is Split)
            }),
        ensures
            ({
                let info = self.chunks[self.pair(class, pair).chunk as int]->0;
                info.root_class == class && info.root_pair == pair
            }),
        decreases self.classes.len() - class,
    {
        reveal(Tree::wf);
        assert(self.pair_ok(class, pair));
        match self.pair(class, pair).parent {
            Some(node) => {
                let parent = spec_node_pair(node) as int;
                assert(self.occ(class + 1, parent));
                self.lemma_only_root(class + 1, parent);
            },
            None => {},
        }
    }

    /// The tree without the pair in the slot `pair` of the class `class`, which holds
    /// the two halves of a chunk, and without the chunk.
    pub open spec fn without_root(self, class: int, pair: int) -> Tree {
        Tree {
            classes: self.classes.update(class, self.classes[class].update(pair, None)),
            chunks: self.chunks.update(self.pair(class, pair).chunk as int, None),
            ..self
        }
    }

    /// The two halves of a chunk can be joined, if neither is split, and the chunk
    /// taken away.
    #[verifier::rlimit(80)]
    #[verifier::spinoff_prover]
    pub proof fn lemma_without_root(self, class: int, pair: int)
        requires
            self.wf(),
            self.occ(class, pair),
            self.pair(class, pair).parent is None,
            !(self.pair(class, pair).left is Split),
            !(self.pair(class, pair).right is Split),
        ensures
            self.without_root(class, pair).wf(),
            self.chunk_occ(self.pair(class, pair).chunk as int),
            self.chunks[self.pair(class, pair).chunk as int]->0.size == 2 * self.class_size(
                class,
            ),
    {
        reveal(Tree::wf);
        let after = self.without_root(class, pair);
        let chunk = self.pair(class, pair).chunk as int;
        assert(self.pair_ok(class, pair));
        assert forall|c: int, p: int| #[trigger] after.occ(c, p) implies after.pair_ok(c, p) by {
            assert(self.occ(c, p));
            assert(self.pair_ok(c, p));
            if self.pair(c, p).chunk == chunk {
                self.lemma_only_root(c, p);
            }
            assert(after.pair(c, p) == self.pair(c, p));
            assert(self.child_ok(c, p, Side::Left));
            assert(self.child_ok(c, p, Side::Right));
            assert(after.child_ok(c, p, Side::Left));
            assert(after.child_ok(c, p, Side::Right));
        }
        assert forall|k: int| #[trigger] after.chunk_occ(k) implies after.chunk_ok(k) by {
            assert(self.chunk_occ(k));
            assert(self.chunk_ok(k));
        }
    }
}

impl Tree {
    /// The live blocks: the nodes that were handed out.
    pub open spec fn live(self) -> Set<BuddyKey> {
        Set::new(|key: BuddyKey| self.held(key.class, key.index))
    }

    /// The key of the node `side` of the pair `pair` of the class `class`.
    pub open spec fn key(class: int, pair: int, side: Side) -> BuddyKey {
        BuddyKey { class, index: spec_node_index(pair as usize, side) as usize }
    }

    /// Handing out a free half adds it to the live blocks.
    pub proof fn lemma_live_hold(self, class: int, pair: int, side: Side)
        requires
            self.occ(class, pair),
            self.pair(class, pair).usage(side) == Use::Free,
            pair <= usize::MAX / 2,
        ensures
            !self.live().contains(Self::key(class, pair, side)),
            self.with_usage(class, pair, side, Use::Held).live() == self.live().insert(
                Self::key(class, pair, side),
            ),
    {
        let after = self.with_usage(class, pair, side, Use::Held);
        assert forall|key: BuddyKey| after.live().contains(key) <==> self.live().insert(
            Self::key(class, pair, side),
        ).contains(key) by {
            if key.class == class && spec_node_pair(key.index) == pair {
            } else if 0 <= key.class < self.classes.len() {
                if key.class != class {
                    assert(after.classes[key.class] == self.classes[key.class]);
                }
            }
        }
        assert(after.live() =~= self.live().insert(Self::key(class, pair, side)));
    }

    /// Freeing a half that was handed out takes it from the live blocks.
    pub proof fn lemma_live_free(self, class: int, pair: int, side: Side)
        requires
            self.occ(class, pair),
            self.pair(class, pair).usage(side) == Use::Held,
            pair <= usize::MAX / 2,
        ensures
            self.with_usage(class, pair, side, Use::Free).live() == self.live().remove(
                Self::key(class, pair, side),
            ),
    {
        let after = self.with_usage(class, pair, side, Use::Free);
        assert forall|key: BuddyKey| after.live().contains(key) <==> self.live().remove(
            Self::key(class, pair, side),
        ).contains(key) by {
            if key.class == class && spec_node_pair(key.index) == pair {
            } else if 0 <= key.class < self.classes.len() {
                if key.class != class {
                    assert(after.classes[key.class] == self.classes[key.class]);
                }
            }
        }
        assert(after.live() =~= self.live().remove(Self::key(class, pair, side)));
    }

    /// The left half of a new chunk joins the live blocks.
    pub proof fn lemma_live_root(self, class: int, pair: int, chunk: int)
        requires
            0 <= class < self.classes.len(),
            0 <= pair <= self.classes[class].len(),
            pair < self.classes[class].len() ==> self.classes[class][pair] is None,
            pair <= usize::MAX / 2,
        ensures
            !self.live().contains(Self::key(class, pair, Side::Left)),
            self.with_root(class, pair, chunk).live() == self.live().insert(
                Self::key(class, pair, Side::Left),
            ),
    {
        let after = self.with_root(class, pair, chunk);
        assert forall|key: BuddyKey| after.live().contains(key) <==> self.live().insert(
            Self::key(class, pair, Side::Left),
        ).contains(key) by {
            if key.class == class && spec_node_pair(key.index) == pair {
            } else if 0 <= key.class < self.classes.len() {
                if key.class != class {
                    assert(after.classes[key.class] == self.classes[key.class]);
                }
            }
        }
        assert(after.live() =~= self.live().insert(Self::key(class, pair, Side::Left)));
    }

    /// Splitting a live block puts the left half of the new pair in its place.
    pub proof fn lemma_live_split(self, class: int, pair: int, side: Side, child: int)
        requires
            class >= 1,
            self.occ(class, pair),
            self.pair(class, pair).usage(side) == Use::Held,
            pair <= usize::MAX / 2,
            0 <= child <= self.classes[class - 1].len(),
            child < self.classes[class - 1].len() ==> self.classes[class - 1][child] is None,
            child <= usize::MAX / 2,
        ensures
            !self.live().contains(Self::key(class - 1, child, Side::Left)),
            self.with_split(class, pair, side, child).live() == self.live().remove(
                Self::key(class, pair, side),
            ).insert(Self::key(class - 1, child, Side::Left)),
    {
        let after = self.with_split(class, pair, side, child);
        let expected = self.live().remove(Self::key(class, pair, side)).insert(
            Self::key(class - 1, child, Side::Left),
        );
        assert forall|key: BuddyKey| after.live().contains(key) <==> expected.contains(key) by {
            if key.class == class && spec_node_pair(key.index) == pair {
            } else if key.class == class - 1 && spec_node_pair(key.index) == child {
            } else if 0 <= key.class < self.classes.len() {
                if key.class != class && key.class != class - 1 {
                    assert(after.classes[key.class] == self.classes[key.class]);
                }
            }
        }
        assert(after.live() =~= expected);
    }

    /// Joining a live block with its free buddy puts the node that the two were split
    /// from in its place.
    pub proof fn lemma_live_joined(self, class: int, pair: int, side: Side)
        requires
            self.occ(class, pair),
            self.pair(class, pair).usage(side) == Use::Held,
            self.pair(class, pair).usage(side.other()) == Use::Free,
            self.pair(class, pair).parent is Some,
            self.occ(class + 1, spec_node_pair(self.pair(class, pair).parent->0) as int),
            self.pair(class + 1, spec_node_pair(self.pair(class, pair).parent->0) as int).usage(
                spec_node_side(self.pair(class, pair).parent->0),
            ) is Split,
            pair <= usize::MAX / 2,
        ensures
            !self.live().contains(
                BuddyKey { class: class + 1, index: self.pair(class, pair).parent->0 },
            ),
            self.with_joined(class, pair).live() == self.live().remove(
                Self::key(class, pair, side),
            ).insert(BuddyKey { class: class + 1, index: self.pair(class, pair).parent->0 }),
    {
        let after = self.with_joined(class, pair);
        let node = self.pair(class, pair).parent->0;
        let parent = spec_node_pair(node) as int;
        let expected = self.live().remove(Self::key(class, pair, side)).insert(
            BuddyKey { class: class + 1, index: node },
        );
        assert forall|key: BuddyKey| after.live().contains(key) <==> expected.contains(key) by {
            if key.class == class && spec_node_pair(key.index) == pair {
            } else if key.class == class + 1 && spec_node_pair(key.index) == parent {
            } else if 0 <= key.class < self.classes.len() {
                if key.class != class && key.class != class + 1 {
                    assert(after.classes[key.class] == self.classes[key.class]);
                }
            }
        }
        assert(after.live() =~= expected);
    }

    /// Joining a live block with its free buddy to a whole chunk takes it from the live
    /// blocks.
    pub proof fn lemma_live_without_root(self, class: int, pair: int, side: Side)
        requires
            self.occ(class, pair),
            self.pair(class, pair).usage(side) == Use::Held,
            self.pair(class, pair).usage(side.other()) == Use::Free,
            pair <= usize::MAX / 2,
        ensures
            self.without_root(class, pair).live() == self.live().remove(
                Self::key(class, pair, side),
            ),
    {
        let after = self.without_root(class, pair);
        let expected = self.live().remove(Self::key(class, pair, side));
        assert forall|key: BuddyKey| after.live().contains(key) <==> expected.contains(key) by {
            if key.class == class && spec_node_pair(key.index) == pair {
            } else if 0 <= key.class < self.classes.len() {
                if key.class != class {
                    assert(after.classes[key.class] == self.classes[key.class]);
                }
            }
        }
        assert(after.live() =~= expected);
    }

    /// A pair lies in a chunk, within its bounds, and its slot can be packed into a node
    /// index.
    pub proof fn lemma_place(self, class: int, pair: int)
        requires
            self.wf(),
            self.occ(class, pair),
        ensures
            self.chunk_occ(self.pair(class, pair).chunk as int),
            self.pair(class, pair).offset + 2 * self.class_size(class)
                <= self.chunks[self.pair(class, pair).chunk as int]->0.size,
            pair <= usize::MAX / 2,
    {
        reveal(Tree::wf);
        assert(self.pair_ok(class, pair));
    }

    /// Classes of different index have different sizes.
    pub proof fn lemma_class_unique(self, a: int, b: int)
        requires
            self.unit >= 1,
            0 <= a < b,
        ensures
            self.class_size(a) < self.class_size(b),
    {
        vstd::arithmetic::power2::lemma_pow2_strictly_increases(a as nat, b as nat);
        assert(self.unit * pow2(a as nat) < self.unit * pow2(b as nat)) by (nonlinear_arith)
            requires
                self.unit >= 1,
                pow2(a as nat) < pow2(b as nat),
        ;
    }
}

impl Tree {
    /// Where no block is live, no class holds a pair.
    pub proof fn lemma_no_pair_without_live(self, class: int, pair: int)
        requires
            self.wf(),
            self.live() == Set::<BuddyKey>::empty(),
        ensures
            !self.occ(class, pair),
        decreases class,
    {
        reveal(Tree::wf);
        if self.occ(class, pair) {
            assert(self.pair_ok(class, pair));
            let core = self.pair(class, pair);
            let side = if core.left is Free {
                Side::Right
            } else {
                Side::Left
            };
            assert(self.child_ok(class, pair, side));
            match core.usage(side) {
                Use::Split(child) => {
                    assert(self.occ(class - 1, child as int));
                    self.lemma_no_pair_without_live(class - 1, child as int);
                },
                _ => {
                    let key = Self::key(class, pair, side);
                    assert(self.held(key.class, key.index));
                    assert(self.live().contains(key));
                },
            }
        }
    }

    /// Where no block is live, there is no chunk.
    pub proof fn lemma_no_chunk_without_live(self, chunk: int)
        requires
            self.wf(),
            self.live() == Set::<BuddyKey>::empty(),
        ensures
            !self.chunk_occ(chunk),
    {
        reveal(Tree::wf);
        if self.chunk_occ(chunk) {
            assert(self.chunk_ok(chunk));
            let info = self.chunks[chunk]->0;
            assert(self.occ(info.root_class, info.root_pair));
            self.lemma_no_pair_without_live(info.root_class, info.root_pair);
        }
    }
}

impl Tree {
    /// Whether the node `side` of the pair `pair` of the class `class` is not split: it
    /// is free, or it is a block that was handed out.
    pub open spec fn leaf(self, class: int, pair: int, side: Side) -> bool {
        self.occ(class, pair) && !(self.pair(class, pair).usage(side) is Split)
    }

    /// Where the node `side` of the pair `pair` of the class `class` starts in its
    /// chunk.
    pub open spec fn start(self, class: int, pair: int, side: Side) -> int {
        match side {
            Side::Left => self.pair(class, pair).offset as int,
            Side::Right => self.pair(class, pair).offset + self.class_size(class),
        }
    }

    /// Whether two nodes lie apart.
    pub open spec fn apart(
        self,
        class: int,
        pair: int,
        side: Side,
        other_class: int,
        other_pair: int,
        other_side: Side,
    ) -> bool {
        self.start(class, pair, side) + self.class_size(class) <= self.start(
            other_class,
            other_pair,
            other_side,
        ) || self.start(other_class, other_pair, other_side) + self.class_size(other_class)
            <= self.start(class, pair, side)
    }

    /// No two nodes of a chunk that are not split overlap.
    #[verifier::opaque]
    pub open spec fn disjoint(self) -> bool {
        forall|class: int, pair: int, side: Side, other_class: int, other_pair: int, other_side: Side|
            #![trigger self.leaf(class, pair, side), self.leaf(other_class, other_pair, other_side)]
            self.leaf(class, pair, side) && self.leaf(other_class, other_pair, other_side)
                && self.pair(class, pair).chunk == self.pair(other_class, other_pair).chunk && !(
            class == other_class && pair == other_pair && side == other_side) ==> self.apart(
                class,
                pair,
                side,
                other_class,
                other_pair,
                other_side,
            )
    }

    /// Two different nodes of a chunk that are not split lie apart.
    pub proof fn lemma_apart(
        self,
        class: int,
        pair: int,
        side: Side,
        other_class: int,
        other_pair: int,
        other_side: Side,
    )
        requires
            self.disjoint(),
            self.leaf(class, pair, side),
            self.leaf(other_class, other_pair, other_side),
            self.pair(class, pair).chunk == self.pair(other_class, other_pair).chunk,
            !(class == other_class && pair == other_pair && side == other_side),
        ensures
            self.apart(class, pair, side, other_class, other_pair, other_side),
    {
        reveal(Tree::disjoint);
    }

    /// A tree without pairs has no nodes that overlap.
    pub proof fn lemma_disjoint_empty(self)
        requires
            forall|class: int, pair: int| !self.occ(class, pair),
        ensures
            self.disjoint(),
    {
        reveal(Tree::disjoint);
    }

    /// A class that is added brings no nodes.
    #[verifier::rlimit(80)]
    #[verifier::spinoff_prover]
    pub proof fn lemma_disjoint_extended(self)
        requires
            self.disjoint(),
        ensures
            self.extended().disjoint(),
    {
        reveal(Tree::disjoint);
        let after = self.extended();
        assert forall|class: int, pair: int, side: Side, other_class: int, other_pair: int, other_side: Side|
            #![trigger after.leaf(class, pair, side), after.leaf(other_class, other_pair, other_side)]
            after.leaf(class, pair, side) && after.leaf(other_class, other_pair, other_side)
                && after.pair(class, pair).chunk == after.pair(other_class, other_pair).chunk && !(
            class == other_class && pair == other_pair && side == other_side) implies after.apart(
            class,
            pair,
            side,
            other_class,
            other_pair,
            other_side,
        ) by {
            assert(self.leaf(class, pair, side));
            assert(self.leaf(other_class, other_pair, other_side));
        }
    }

    /// Handing out a half, or freeing one, moves no node.
    #[verifier::rlimit(80)]
    #[verifier::spinoff_prover]
    pub proof fn lemma_disjoint_with_usage(self, class: int, pair: int, side: Side, usage: Use)
        requires
            self.disjoint(),
            self.occ(class, pair),
            !(self.pair(class, pair).usage(side) is Split),
            !(usage is Split),
        ensures
            self.with_usage(class, pair, side, usage).disjoint(),
    {
        reveal(Tree::disjoint);
        let after = self.with_usage(class, pair, side, usage);
        assert forall|c: int, p: int, s: Side, oc: int, op: int, os: Side|
            #![trigger after.leaf(c, p, s), after.leaf(oc, op, os)]
            after.leaf(c, p, s) && after.leaf(oc, op, os) && after.pair(c, p).chunk == after.pair(
                oc,
                op,
            ).chunk && !(c == oc && p == op && s
                == os) implies after.apart(c, p, s, oc, op, os) by {
            assert(self.leaf(c, p, s));
            assert(self.leaf(oc, op, os));
            assert(after.pair(c, p).offset == self.pair(c, p).offset);
            assert(after.pair(oc, op).offset == self.pair(oc, op).offset);
            assert(after.pair(c, p).chunk == self.pair(c, p).chunk);
            assert(after.pair(oc, op).chunk == self.pair(oc, op).chunk);
            assert(self.apart(c, p, s, oc, op, os));
        }
    }

    /// The two halves of a new chunk overlap with nothing.
    #[verifier::rlimit(80)]
    #[verifier::spinoff_prover]
    pub proof fn lemma_disjoint_with_root(self, class: int, pair: int, chunk: int)
        requires
            self.wf(),
            self.disjoint(),
            0 <= class < self.classes.len(),
            0 <= pair <= self.classes[class].len(),
            pair < self.classes[class].len() ==> self.classes[class][pair] is None,
            0 <= chunk <= self.chunks.len(),
            chunk < self.chunks.len() ==> self.chunks[chunk] is None,
            chunk <= usize::MAX,
        ensures
            self.with_root(class, pair, chunk).disjoint(),
    {
        reveal(Tree::disjoint);
        self.lemma_sizes_fit();
        self.lemma_class_sizes(class);
        let after = self.with_root(class, pair, chunk);
        assert forall|c: int, p: int, s: Side, oc: int, op: int, os: Side|
            #![trigger after.leaf(c, p, s), after.leaf(oc, op, os)]
            after.leaf(c, p, s) && after.leaf(oc, op, os) && after.pair(c, p).chunk == after.pair(
                oc,
                op,
            ).chunk && !(c == oc && p == op && s
                == os) implies after.apart(c, p, s, oc, op, os) by {
            let first_new = c == class && p == pair;
            let second_new = oc == class && op == pair;
            if !first_new {
                assert(self.leaf(c, p, s));
                assert(after.pair(c, p) == self.pair(c, p));
                self.lemma_place(c, p);
            }
            if !second_new {
                assert(self.leaf(oc, op, os));
                assert(after.pair(oc, op) == self.pair(oc, op));
                self.lemma_place(oc, op);
            }
            if !first_new && !second_new {
                assert(self.apart(c, p, s, oc, op, os));
            }
        }
    }

    /// The two halves of a node that is split overlap with nothing that the node did
    /// not overlap with.
    #[verifier::rlimit(80)]
    #[verifier::spinoff_prover]
    pub proof fn lemma_disjoint_with_split(self, class: int, pair: int, side: Side, child: int)
        requires
            self.wf(),
            self.disjoint(),
            class >= 1,
            self.occ(class, pair),
            self.pair(class, pair).usage(side) == Use::Held,
            0 <= child <= self.classes[class - 1].len(),
            child < self.classes[class - 1].len() ==> self.classes[class - 1][child] is None,
        ensures
            self.with_split(class, pair, side, child).disjoint(),
    {
        self.lemma_sizes_fit();
        self.lemma_class_sizes(class - 1);
        self.lemma_class_sizes(class);
        self.lemma_place(class, pair);
        let after = self.with_split(class, pair, side, child);
        let half = self.class_size(class - 1);
        let whole = self.class_size(class);
        let x = self.start(class, pair, side);
        assert(whole == 2 * half);
        assert(half >= 1);
        assert(after.unit == self.unit);
        assert(after.pair(class - 1, child).offset == x);
        assert(after.pair(class - 1, child).chunk == self.pair(class, pair).chunk);
        assert(after.start(class - 1, child, Side::Left) == x);
        assert(after.start(class - 1, child, Side::Right) == x + half);
        assert(self.leaf(class, pair, side));
        assert forall|c: int, p: int, s: Side, oc: int, op: int, os: Side|
            #![trigger after.leaf(c, p, s), after.leaf(oc, op, os)]
            after.leaf(c, p, s) && after.leaf(oc, op, os) && after.pair(c, p).chunk == after.pair(
                oc,
                op,
            ).chunk && !(c == oc && p == op && s
                == os) implies after.apart(c, p, s, oc, op, os) by {
            let first_new = c == class - 1 && p == child;
            let second_new = oc == class - 1 && op == child;
            if !first_new {
                assert(self.leaf(c, p, s));
                assert(after.pair(c, p).offset == self.pair(c, p).offset);
                assert(after.pair(c, p).chunk == self.pair(c, p).chunk);
                assert(after.start(c, p, s) == self.start(c, p, s));
                assert(!(c == class && p == pair && s == side));
            }
            if !second_new {
                assert(self.leaf(oc, op, os));
                assert(after.pair(oc, op).offset == self.pair(oc, op).offset);
                assert(after.pair(oc, op).chunk == self.pair(oc, op).chunk);
                assert(after.start(oc, op, os) == self.start(oc, op, os));
                assert(!(oc == class && op == pair && os == side));
            }
            if !first_new && !second_new {
                self.lemma_apart(c, p, s, oc, op, os);
            } else if first_new && !second_new {
                self.lemma_apart(class, pair, side, oc, op, os);
                assert(after.class_size(c) == half);
            } else if !first_new && second_new {
                self.lemma_apart(c, p, s, class, pair, side);
                assert(after.class_size(oc) == half);
            } else {
                assert(after.class_size(c) == half);
            }
        }
        assert(after.disjoint()) by {
            reveal(Tree::disjoint);
        }
    }

    /// A node that its two halves are joined to overlaps with nothing that they did not
    /// overlap with.
    #[verifier::rlimit(80)]
    #[verifier::spinoff_prover]
    pub proof fn lemma_disjoint_with_joined(self, class: int, pair: int)
        requires
            self.wf(),
            self.disjoint(),
            self.occ(class, pair),
            self.pair(class, pair).parent is Some,
            !(self.pair(class, pair).left is Split),
            !(self.pair(class, pair).right is Split),
        ensures
            self.with_joined(class, pair).disjoint(),
    {
        self.lemma_sizes_fit();
        self.lemma_class_sizes(class);
        self.lemma_parent(class, pair);
        let after = self.with_joined(class, pair);
        let node = self.pair(class, pair).parent->0;
        let parent = spec_node_pair(node) as int;
        let parent_side = spec_node_side(node);
        self.lemma_class_sizes(class + 1);
        let half = self.class_size(class);
        let whole = self.class_size(class + 1);
        let x = self.pair(class, pair).offset as int;
        assert(whole == 2 * half);
        assert(half >= 1);
        assert(after.unit == self.unit);
        assert(self.start(class + 1, parent, parent_side) == x);
        assert(self.start(class, pair, Side::Left) == x);
        assert(self.start(class, pair, Side::Right) == x + half);
        assert(self.leaf(class, pair, Side::Left));
        assert(self.leaf(class, pair, Side::Right));
        assert forall|c: int, p: int, s: Side, oc: int, op: int, os: Side|
            #![trigger after.leaf(c, p, s), after.leaf(oc, op, os)]
            after.leaf(c, p, s) && after.leaf(oc, op, os) && after.pair(c, p).chunk == after.pair(
                oc,
                op,
            ).chunk && !(c == oc && p == op && s
                == os) implies after.apart(c, p, s, oc, op, os) by {
            let first_new = c == class + 1 && p == parent && s == parent_side;
            let second_new = oc == class + 1 && op == parent && os == parent_side;
            assert(after.pair(c, p).offset == self.pair(c, p).offset);
            assert(after.pair(c, p).chunk == self.pair(c, p).chunk);
            assert(after.pair(oc, op).offset == self.pair(oc, op).offset);
            assert(after.pair(oc, op).chunk == self.pair(oc, op).chunk);
            assert(after.start(c, p, s) == self.start(c, p, s));
            assert(after.start(oc, op, os) == self.start(oc, op, os));
            assert(!(c == class && p == pair));
            assert(!(oc == class && op == pair));
            if !first_new {
                assert(self.leaf(c, p, s));
            }
            if !second_new {
                assert(self.leaf(oc, op, os));
            }
            if !first_new && !second_new {
                self.lemma_apart(c, p, s, oc, op, os);
            } else if first_new && !second_new {
                self.lemma_class_positive(oc, op);
                self.lemma_apart(class, pair, Side::Left, oc, op, os);
                self.lemma_apart(class, pair, Side::Right, oc, op, os);
            } else if !first_new && second_new {
                self.lemma_class_positive(c, p);
                self.lemma_apart(c, p, s, class, pair, Side::Left);
                self.lemma_apart(c, p, s, class, pair, Side::Right);
            }
        }
        assert(after.disjoint()) by {
            reveal(Tree::disjoint);
        }
    }

    /// Taking a chunk away with its two halves moves no node.
    #[verifier::rlimit(80)]
    #[verifier::spinoff_prover]
    pub proof fn lemma_disjoint_without_root(self, class: int, pair: int)
        requires
            self.disjoint(),
            self.occ(class, pair),
        ensures
            self.without_root(class, pair).disjoint(),
    {
        reveal(Tree::disjoint);
        let after = self.without_root(class, pair);
        assert forall|c: int, p: int, s: Side, oc: int, op: int, os: Side|
            #![trigger after.leaf(c, p, s), after.leaf(oc, op, os)]
            after.leaf(c, p, s) && after.leaf(oc, op, os) && after.pair(c, p).chunk == after.pair(
                oc,
                op,
            ).chunk && !(c == oc && p == op && s
                == os) implies after.apart(c, p, s, oc, op, os) by {
            assert(self.leaf(c, p, s));
            assert(self.leaf(oc, op, os));
            assert(self.apart(c, p, s, oc, op, os));
        }
    }

    /// A pair that was split from a node lies where the node lies, in the same chunk.
    pub proof fn lemma_parent(self, class: int, pair: int)
        requires
            self.wf(),
            self.occ(class, pair),
            self.pair(class, pair).parent is Some,
        ensures
            ({
                let node = self.pair(class, pair).parent->0;
                let parent = spec_node_pair(node) as int;
                &&& self.occ(class + 1, parent)
                &&& self.pair(class + 1, parent).usage(spec_node_side(node)) == Use::Split(
                    pair as usize,
                )
                &&& self.pair(class + 1, parent).chunk == self.pair(class, pair).chunk
                &&& self.pair(class, pair).offset == self.start(
                    class + 1,
                    parent,
                    spec_node_side(node),
                )
            }),
    {
        reveal(Tree::wf);
        assert(self.pair_ok(class, pair));
        self.lemma_class_sizes(class);
        let node = self.pair(class, pair).parent->0;
        let parent = spec_node_pair(node) as int;
        assert(self.occ(class + 1, parent));
        self.lemma_class_sizes(class + 1);
    }

    /// The halves of a pair are not empty.
    pub proof fn lemma_class_positive(self, class: int, pair: int)
        requires
            self.wf(),
            self.occ(class, pair),
        ensures
            self.class_size(class) >= 1,
    {
        self.lemma_sizes_fit();
        self.lemma_class_sizes(class);
    }
}

impl Tree {
    /// The sizes of the classes are powers of two, if that of class 0 is.
    pub proof fn lemma_class_power_of_two(self, class: int)
        requires
            self.sizes_fit(),
            spec_is_power_of_two(self.unit),
            0 <= class <= self.classes.len(),
        ensures
            self.class_size(class) <= u64::MAX,
            spec_is_power_of_two(self.class_size(class) as u64),
        decreases class,
    {
        if class == 0 {
            vstd::arithmetic::power2::lemma2_to64();
            assert(self.unit * pow2(0) == self.unit) by (nonlinear_arith)
                requires
                    pow2(0) == 1,
            ;
        } else {
            self.lemma_class_power_of_two(class - 1);
            self.lemma_class_sizes(class - 1);
            lemma_double_power_of_two(self.class_size(class - 1) as u64);
        }
    }

    /// Whether a pair starts at a multiple of its size.
    pub open spec fn pair_aligned(self, class: int, pair: int) -> bool {
        self.pair(class, pair).offset & ((2 * self.class_size(class) - 1) as u64) == 0
    }

    /// Every pair starts at a multiple of its size: each of its halves starts at a
    /// multiple of the size of the halves.
    #[verifier::opaque]
    pub open spec fn aligned(self) -> bool {
        forall|class: int, pair: int| #[trigger]
            self.occ(class, pair) ==> self.pair_aligned(class, pair)
    }

    /// Every node starts at a multiple of its size.
    pub proof fn lemma_aligned(self, class: int, pair: int, side: Side)
        requires
            self.wf(),
            self.aligned(),
            spec_is_power_of_two(self.unit),
            self.occ(class, pair),
        ensures
            1 <= self.class_size(class) <= u64::MAX,
            0 <= self.start(class, pair, side) <= u64::MAX,
            (self.start(class, pair, side) as u64) & ((self.class_size(class) - 1) as u64) == 0,
    {
        reveal(Tree::aligned);
        self.lemma_sizes_fit();
        self.lemma_class_sizes(class);
        self.lemma_class_power_of_two(class);
        self.lemma_place(class, pair);
        assert(self.pair_aligned(class, pair));
        lemma_aligned_halves(self.pair(class, pair).offset, self.class_size(class) as u64);
    }

    /// A tree without pairs is aligned.
    pub proof fn lemma_aligned_empty(self)
        requires
            forall|class: int, pair: int| !self.occ(class, pair),
        ensures
            self.aligned(),
    {
        reveal(Tree::aligned);
    }

    /// A class that is added brings no pairs.
    pub proof fn lemma_aligned_extended(self)
        requires
            self.aligned(),
        ensures
            self.extended().aligned(),
    {
        reveal(Tree::aligned);
        let after = self.extended();
        assert forall|class: int, pair: int| #[trigger] after.occ(class, pair)
            implies after.pair_aligned(
            class,
            pair,
        ) by {
            assert(self.occ(class, pair));
            assert(self.pair_aligned(class, pair));
        }
    }

    /// Handing out a half, or freeing one, moves no pair.
    pub proof fn lemma_aligned_with_usage(self, class: int, pair: int, side: Side, usage: Use)
        requires
            self.aligned(),
            self.occ(class, pair),
        ensures
            self.with_usage(class, pair, side, usage).aligned(),
    {
        reveal(Tree::aligned);
        let after = self.with_usage(class, pair, side, usage);
        assert forall|c: int, p: int| #[trigger] after.occ(c, p)
            implies after.pair_aligned(c, p) by {
            assert(self.occ(c, p));
            assert(self.pair_aligned(c, p));
            assert(after.pair(c, p).offset == self.pair(c, p).offset);
        }
    }

    /// The two halves of a new chunk start at the start of the chunk.
    pub proof fn lemma_aligned_with_root(self, class: int, pair: int, chunk: int)
        requires
            self.wf(),
            self.aligned(),
            0 <= class < self.classes.len(),
            0 <= pair <= self.classes[class].len(),
        ensures
            self.with_root(class, pair, chunk).aligned(),
    {
        reveal(Tree::aligned);
        self.lemma_sizes_fit();
        self.lemma_class_sizes(class);
        let after = self.with_root(class, pair, chunk);
        assert forall|c: int, p: int| #[trigger] after.occ(c, p)
            implies after.pair_aligned(c, p) by {
            if c == class && p == pair {
                assert(after.pair(c, p).offset == 0);
                let mask = (2 * after.class_size(c) - 1) as u64;
                assert(0u64 & mask == 0) by (bit_vector);
            } else {
                assert(self.occ(c, p));
                assert(after.pair(c, p) == self.pair(c, p));
                assert(self.pair_aligned(c, p));
            }
        }
    }

    /// The two halves of a node that is split start where the node starts.
    pub proof fn lemma_aligned_with_split(self, class: int, pair: int, side: Side, child: int)
        requires
            self.wf(),
            self.aligned(),
            spec_is_power_of_two(self.unit),
            class >= 1,
            self.occ(class, pair),
            0 <= child <= self.classes[class - 1].len(),
        ensures
            self.with_split(class, pair, side, child).aligned(),
    {
        reveal(Tree::aligned);
        self.lemma_sizes_fit();
        self.lemma_class_sizes(class - 1);
        self.lemma_class_sizes(class);
        self.lemma_place(class, pair);
        self.lemma_aligned(class, pair, side);
        let after = self.with_split(class, pair, side, child);
        assert(after.pair(class - 1, child).offset == self.start(class, pair, side));
        assert forall|c: int, p: int| #[trigger] after.occ(c, p)
            implies after.pair_aligned(c, p) by {
            if c == class - 1 && p == child {
            } else {
                assert(self.occ(c, p));
                assert(self.pair_aligned(c, p));
                assert(after.pair(c, p).offset == self.pair(c, p).offset);
            }
        }
    }

    /// Joining the two halves of a node moves no other pair.
    pub proof fn lemma_aligned_with_joined(self, class: int, pair: int)
        requires
            self.wf(),
            self.aligned(),
            self.occ(class, pair),
            self.pair(class, pair).parent is Some,
        ensures
            self.with_joined(class, pair).aligned(),
    {
        reveal(Tree::aligned);
        self.lemma_parent(class, pair);
        let after = self.with_joined(class, pair);
        assert forall|c: int, p: int| #[trigger] after.occ(c, p)
            implies after.pair_aligned(c, p) by {
            assert(self.occ(c, p));
            assert(self.pair_aligned(c, p));
            assert(after.pair(c, p).offset == self.pair(c, p).offset);
        }
    }

    /// Taking a chunk away with its two halves moves no other pair.
    pub proof fn lemma_aligned_without_root(self, class: int, pair: int)
        requires
            self.aligned(),
            self.occ(class, pair),
        ensures
            self.without_root(class, pair).aligned(),
    {
        reveal(Tree::aligned);
        let after = self.without_root(class, pair);
        assert forall|c: int, p: int| #[trigger] after.occ(c, p)
            implies after.pair_aligned(c, p) by {
            assert(self.occ(c, p));
            assert(self.pair_aligned(c, p));
        }
    }
}

impl Tree {
    /// Whether every pair and every chunk of `self` is in `after`, where it was: each
    /// pair in its slot, with its chunk and its offset, and each chunk in its slot, with
    /// its size.
    #[verifier::opaque]
    pub open spec fn within(self, after: Tree) -> bool {
        &&& self.unit == after.unit
        &&& forall|class: int, pair: int| #[trigger]
            self.occ(class, pair) ==> after.present(class, pair) && after.pair(class, pair).chunk
                == self.pair(class, pair).chunk && after.pair(class, pair).offset == self.pair(
                class,
                pair,
            ).offset
        &&& forall|chunk: int| #[trigger]
            self.chunk_occ(chunk) ==> 0 <= chunk < after.chunks.len() && after.chunks[chunk]
                is Some && after.chunks[chunk]->0.size == self.chunks[chunk]->0.size
    }

    /// What is within a tree that is within another is within that.
    pub proof fn lemma_within_transitive(self, middle: Tree, after: Tree)
        requires
            self.within(middle),
            middle.within(after),
        ensures
            self.within(after),
    {
        reveal(Tree::within);
        assert forall|class: int, pair: int| #[trigger] self.occ(class, pair) implies after.present(
            class,
            pair,
        ) && after.pair(class, pair).chunk == self.pair(class, pair).chunk && after.pair(
            class,
            pair,
        ).offset == self.pair(class, pair).offset by {
            assert(middle.occ(class, pair));
        }
        assert forall|chunk: int| #[trigger] self.chunk_occ(chunk) implies 0 <= chunk
            < after.chunks.len() && after.chunks[chunk] is Some && after.chunks[chunk]->0.size
            == self.chunks[chunk]->0.size by {
            assert(middle.chunk_occ(chunk));
        }
    }

    /// A tree is within itself.
    pub proof fn lemma_within_self(self)
        ensures
            self.within(self),
    {
        reveal(Tree::within);
    }

    /// Handing out a half, or freeing one, keeps every pair and every chunk.
    pub proof fn lemma_within_with_usage(self, class: int, pair: int, side: Side, usage: Use)
        requires
            self.occ(class, pair),
        ensures
            self.within(self.with_usage(class, pair, side, usage)),
            self.with_usage(class, pair, side, usage).within(self),
    {
        reveal(Tree::within);
        let after = self.with_usage(class, pair, side, usage);
        assert forall|c: int, p: int| #[trigger] after.occ(c, p) implies self.present(c, p)
            && self.pair(c, p).chunk == after.pair(c, p).chunk && self.pair(c, p).offset
            == after.pair(c, p).offset by {
            if c != class {
                assert(after.classes[c] == self.classes[c]);
            }
        }
        assert forall|c: int, p: int| #[trigger] self.occ(c, p) implies after.present(c, p)
            && self.pair(c, p).chunk == after.pair(c, p).chunk && self.pair(c, p).offset
            == after.pair(c, p).offset by {
            if c != class {
                assert(after.classes[c] == self.classes[c]);
            }
        }
    }

    /// A class that is added keeps every pair and every chunk.
    pub proof fn lemma_within_extended(self)
        ensures
            self.within(self.extended()),
    {
        reveal(Tree::within);
    }

    /// A chunk that is added keeps every other pair and every other chunk.
    pub proof fn lemma_within_with_root(self, class: int, pair: int, chunk: int)
        requires
            0 <= class < self.classes.len(),
            0 <= pair <= self.classes[class].len(),
            pair < self.classes[class].len() ==> self.classes[class][pair] is None,
            0 <= chunk <= self.chunks.len(),
            chunk < self.chunks.len() ==> self.chunks[chunk] is None,
        ensures
            self.within(self.with_root(class, pair, chunk)),
    {
        reveal(Tree::within);
        let after = self.with_root(class, pair, chunk);
        assert forall|c: int, p: int| #[trigger] self.occ(c, p) implies after.present(c, p)
            && self.pair(c, p).chunk == after.pair(c, p).chunk && self.pair(c, p).offset
            == after.pair(c, p).offset by {
            if c != class {
                assert(after.classes[c] == self.classes[c]);
            }
        }
    }

    /// A node that is split keeps every pair and every chunk.
    pub proof fn lemma_within_with_split(self, class: int, pair: int, side: Side, child: int)
        requires
            class >= 1,
            self.occ(class, pair),
            0 <= child <= self.classes[class - 1].len(),
            child < self.classes[class - 1].len() ==> self.classes[class - 1][child] is None,
        ensures
            self.within(self.with_split(class, pair, side, child)),
    {
        reveal(Tree::within);
        let after = self.with_split(class, pair, side, child);
        assert forall|c: int, p: int| #[trigger] self.occ(c, p) implies after.present(c, p)
            && self.pair(c, p).chunk == after.pair(c, p).chunk && self.pair(c, p).offset
            == after.pair(c, p).offset by {
            if c != class && c != class - 1 {
                assert(after.classes[c] == self.classes[c]);
            }
        }
    }

    /// Joining the two halves of a node keeps every other pair and every chunk.
    pub proof fn lemma_within_with_joined(self, class: int, pair: int)
        requires
            self.wf(),
            self.occ(class, pair),
            self.pair(class, pair).parent is Some,
        ensures
            self.with_joined(class, pair).within(self),
    {
        reveal(Tree::within);
        self.lemma_parent(class, pair);
        let after = self.with_joined(class, pair);
        assert forall|c: int, p: int| #[trigger] after.occ(c, p) implies self.present(c, p)
            && self.pair(c, p).chunk == after.pair(c, p).chunk && self.pair(c, p).offset
            == after.pair(c, p).offset by {
            if c != class && c != class + 1 {
                assert(after.classes[c] == self.classes[c]);
            }
        }
    }

    /// Taking a chunk away with its two halves keeps every other pair and every other
    /// chunk.
    pub proof fn lemma_within_without_root(self, class: int, pair: int)
        requires
            self.wf(),
            self.occ(class, pair),
        ensures
            self.without_root(class, pair).within(self),
    {
        reveal(Tree::within);
        self.lemma_place(class, pair);
        let after = self.without_root(class, pair);
        assert forall|c: int, p: int| #[trigger] after.occ(c, p) implies self.present(c, p)
            && self.pair(c, p).chunk == after.pair(c, p).chunk && self.pair(c, p).offset
            == after.pair(c, p).offset by {
            if c != class {
                assert(after.classes[c] == self.classes[c]);
            }
        }
    }

    /// A live block of a tree is a live block of every tree that the first is within,
    /// if its node is handed out there too: it lies in the same chunk, at the same place,
    /// and the chunk is as large.
    pub proof fn lemma_within_place(self, after: Tree, key: BuddyKey)
        requires
            self.wf(),
            self.within(after),
            self.live().contains(key),
        ensures
            after.occ(key.class, spec_node_pair(key.index) as int),
            after.pair(key.class, spec_node_pair(key.index) as int).chunk == self.pair(
                key.class,
                spec_node_pair(key.index) as int,
            ).chunk,
            after.start(key.class, spec_node_pair(key.index) as int, spec_node_side(key.index))
                == self.start(
                key.class,
                spec_node_pair(key.index) as int,
                spec_node_side(key.index),
            ),
            after.class_size(key.class) == self.class_size(key.class),
            after.chunk_occ(self.pair(key.class, spec_node_pair(key.index) as int).chunk as int),
            after.chunks[self.pair(key.class, spec_node_pair(key.index) as int).chunk as int]->0.size
                == self.chunks[self.pair(
                key.class,
                spec_node_pair(key.index) as int,
            ).chunk as int]->0.size,
    {
        reveal(Tree::within);
        let pair = spec_node_pair(key.index) as int;
        assert(self.occ(key.class, pair));
        self.lemma_place(key.class, pair);
        assert(self.chunk_occ(self.pair(key.class, pair).chunk as int));
    }

    /// Every pair lies in a chunk in which a block is live.
    pub proof fn lemma_pair_has_live(self, class: int, pair: int) -> (key: BuddyKey)
        requires
            self.wf(),
            self.occ(class, pair),
        ensures
            self.live().contains(key),
            self.occ(key.class, spec_node_pair(key.index) as int),
            self.pair(key.class, spec_node_pair(key.index) as int).chunk == self.pair(
                class,
                pair,
            ).chunk,
        decreases class,
    {
        reveal(Tree::wf);
        assert(self.pair_ok(class, pair));
        let core = self.pair(class, pair);
        let side = if core.left is Free {
            Side::Right
        } else {
            Side::Left
        };
        assert(self.child_ok(class, pair, side));
        match core.usage(side) {
            Use::Split(child) => {
                assert(self.occ(class - 1, child as int));
                assert(self.pair_ok(class - 1, child as int));
                self.lemma_pair_has_live(class - 1, child as int)
            },
            _ => {
                let key = Self::key(class, pair, side);
                assert(self.held(key.class, key.index));
                key
            },
        }
    }

    /// A chunk is held only as long as a block of it is live.
    pub proof fn lemma_chunk_has_live(self, chunk: int) -> (key: BuddyKey)
        requires
            self.wf(),
            self.chunk_occ(chunk),
        ensures
            self.live().contains(key),
            self.occ(key.class, spec_node_pair(key.index) as int),
            self.pair(key.class, spec_node_pair(key.index) as int).chunk == chunk,
    {
        reveal(Tree::wf);
        assert(self.chunk_ok(chunk));
        let info = self.chunks[chunk]->0;
        assert(self.occ(info.root_class, info.root_pair));
        self.lemma_pair_has_live(info.root_class, info.root_pair)
    }
}

} // verus!
