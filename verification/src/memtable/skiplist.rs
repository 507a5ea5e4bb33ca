//! A memtable kept in a skip list.

use rand::rngs::StdRng;
use rand::Rng;
use rand::SeedableRng;
use vstd::prelude::*;

use crate::lookup::EntryState;
use crate::memtable::{
    law_write_changes_one_item, listing, listing_view, lists, one_item_written, Memtable,
};
use crate::order::{compare_keys, key_le, key_lt, lemma_key_order, KeyOrder};
use crate::record::{entry_view, RecordView};

verus! {

/// The number of levels of the list.
pub const MAX_LEVEL: usize = 20;

/// The arena index of the head, a node without an entry that stands before all others.
pub const HEAD_INDEX: usize = 0;

/// The seed of the coin flips where the operating system provides none.
const FALLBACK_SEED: u64 = 0;

/// `rand::rngs::StdRng`, the generator of the coin flips that decide how high a
/// node reaches. Nothing is known of its state.
#[verifier::external_type_specification]
#[verifier::external_body]
pub struct ExStdRng(rand::rngs::StdRng);

/// `rand::Rng::random` for a `bool`: either outcome may come back, and the
/// generator moves on. Nothing is claimed of the result.
#[verifier::external_body]
fn flip(rng: &mut StdRng) -> (heads: bool) {
    rng.random::<bool>()
}

/// `rand::SeedableRng::try_from_os_rng` for a `StdRng`: some generator, seeded by
/// the operating system, or `None` where that provides no entropy. Nothing is
/// claimed of the result.
#[verifier::external_body]
fn seeded_by_os() -> (rng: Option<StdRng>) {
    StdRng::try_from_os_rng().ok()
}

/// `rand::SeedableRng::seed_from_u64` for a `StdRng`: some generator. Nothing is
/// claimed of it. Its coin flips follow from the seed, but are not the same on
/// every machine and in every version of the crate, and no result rests on them.
#[verifier::external_body]
fn seeded(seed: u64) -> (rng: StdRng) {
    StdRng::seed_from_u64(seed)
}

enum Value {
    Live(Vec<u8>),
    Tombstone,
}

impl View for Value {
    type V = Option<Seq<u8>>;

    closed spec fn view(&self) -> Option<Seq<u8>> {
        match self {
            Value::Live(val) => Some(val@),
            Value::Tombstone => None,
        }
    }
}

struct Node {
    key: Vec<u8>,
    val: Value,
    next: [Option<usize>; MAX_LEVEL],
}

/// A memtable whose entries stand in a skip list over an arena of nodes.
pub struct SkipListMemtable {
    nodes: Vec<Node>,
    rng: StdRng,
    // The number of levels on which each node is linked.
    heights: Ghost<Seq<nat>>,
}

/// Whether node `j` stands after node `i`: the head stands before every other node.
spec fn after(nodes: Seq<Node>, i: int, j: int) -> bool {
    i == HEAD_INDEX || key_lt(nodes[i].key@, nodes[j].key@)
}

/// Whether node `i` stands before `key`: the head stands before every key.
spec fn before_key(nodes: Seq<Node>, i: int, key: Seq<u8>) -> bool {
    i == HEAD_INDEX || key_lt(nodes[i].key@, key)
}

/// Whether `j` is an entry node that reaches `level`.
spec fn on_level(nodes: Seq<Node>, heights: Seq<nat>, level: int, j: int) -> bool {
    0 < j < nodes.len() && level < heights[j]
}

/// Whether the link of node `i` on `level` leads to the nearest node after it there.
spec fn linked(nodes: Seq<Node>, heights: Seq<nat>, i: int, level: int) -> bool {
    match nodes[i].next@[level] {
        Some(j) => {
            &&& on_level(nodes, heights, level, j as int)
            &&& after(nodes, i, j as int)
            &&& forall|m: int| #[trigger]
                on_level(nodes, heights, level, m) && after(nodes, i, m) ==> key_le(
                    nodes[j as int].key@,
                    nodes[m].key@,
                )
        },
        None => forall|m: int| #[trigger]
            on_level(nodes, heights, level, m) ==> !after(nodes, i, m),
    }
}

/// The list is intact: keys are distinct, every node reaches the lowest level,
/// and every link leads to the nearest later node of its level.
spec fn intact(nodes: Seq<Node>, heights: Seq<nat>) -> bool {
    &&& nodes.len() > 0
    &&& heights.len() == nodes.len()
    &&& heights[0] == MAX_LEVEL
    &&& forall|i: int| 0 <= i < nodes.len() ==> 1 <= #[trigger] heights[i] <= MAX_LEVEL
    &&& forall|i: int, j: int|
        0 < i < nodes.len() && 0 < j < nodes.len() && i != j ==> #[trigger] nodes[i].key@
            != #[trigger] nodes[j].key@
    &&& forall|i: int, level: int|
        0 <= i < nodes.len() && 0 <= level < heights[i] ==> #[trigger] linked(
            nodes,
            heights,
            i,
            level,
        )
}

/// Whether some node holds `key`.
spec fn holds(nodes: Seq<Node>, key: Seq<u8>) -> bool {
    exists|i: int| 0 < i < nodes.len() && #[trigger] nodes[i].key@ == key
}

/// The node that holds `key`.
spec fn node_of(nodes: Seq<Node>, key: Seq<u8>) -> int {
    choose|i: int| 0 < i < nodes.len() && #[trigger] nodes[i].key@ == key
}

/// The entries that the nodes hold.
spec fn contents(nodes: Seq<Node>) -> Map<Seq<u8>, Option<Seq<u8>>> {
    Map::new(|key: Seq<u8>| holds(nodes, key), |key: Seq<u8>| nodes[node_of(nodes, key)].val@)
}

/// The nodes that stand after node `i`.
spec fn later(nodes: Seq<Node>, i: int) -> Set<int> {
    Set::new(|m: int| 0 < m < nodes.len() && after(nodes, i, m))
}

/// `later` is finite, and shrinks from a node to one after it.
proof fn lemma_later_shrinks(nodes: Seq<Node>, i: int, j: int)
    requires
        0 <= i < nodes.len(),
        0 < j < nodes.len(),
        after(nodes, i, j),
    ensures
        later(nodes, j).len() < later(nodes, i).len(),
{
    lemma_key_order();
    let all = vstd::set_lib::set_int_range(0, nodes.len() as int);
    vstd::set_lib::lemma_int_range(0, nodes.len() as int);
    vstd::set_lib::lemma_len_subset(later(nodes, i), all);
    assert(later(nodes, i).contains(j));
    assert(!later(nodes, j).contains(j));
    assert(later(nodes, j).subset_of(later(nodes, i).remove(j)));
    vstd::set_lib::lemma_len_subset(later(nodes, j), later(nodes, i).remove(j));
}

impl SkipListMemtable {
    /// What `find` returns for `key`: on every level the last node before `key`.
    spec fn precede(
        nodes: Seq<Node>,
        heights: Seq<nat>,
        previous: Seq<usize>,
        level: int,
        key: Seq<u8>,
    ) -> bool {
        let p = previous[level] as int;
        &&& 0 <= p < nodes.len()
        &&& level < heights[p]
        &&& before_key(nodes, p, key)
        &&& forall|m: int| #[trigger]
            on_level(nodes, heights, level, m) && key_lt(nodes[m].key@, key) ==> p != HEAD_INDEX
                && key_le(nodes[m].key@, nodes[p].key@)
    }

    /// Returns the last node before `key` on each level, and the first node at or after `key`.
    fn find(&self, key: &[u8]) -> (found: ([usize; MAX_LEVEL], Option<usize>))
        requires
            intact(self.nodes@, self.heights@),
        ensures
            forall|level: int|
                0 <= level < MAX_LEVEL ==> #[trigger] Self::precede(
                    self.nodes@,
                    self.heights@,
                    found.0@,
                    level,
                    key@,
                ),
            found.1 == self.nodes@[found.0@[0] as int].next@[0],
    {
        let mut previous_nodes: [usize; MAX_LEVEL] = [HEAD_INDEX; MAX_LEVEL];
        let mut node_index: usize = HEAD_INDEX;
        let mut level: usize = MAX_LEVEL;
        while level > 0
            invariant
                level <= MAX_LEVEL,
                intact(self.nodes@, self.heights@),
                node_index < self.nodes@.len(),
                level <= self.heights@[node_index as int],
                before_key(self.nodes@, node_index as int, key@),
                forall|l: int|
                    level <= l < MAX_LEVEL ==> #[trigger] Self::precede(
                        self.nodes@,
                        self.heights@,
                        previous_nodes@,
                        l,
                        key@,
                    ),
            decreases level,
        {
            level -= 1;
            let ghost above = previous_nodes@;
            loop
                invariant
                    level < MAX_LEVEL,
                    intact(self.nodes@, self.heights@),
                    node_index < self.nodes@.len(),
                    level < self.heights@[node_index as int],
                    before_key(self.nodes@, node_index as int, key@),
                ensures
                    forall|m: int| #[trigger]
                        on_level(self.nodes@, self.heights@, level as int, m) && key_lt(
                            self.nodes@[m].key@,
                            key@,
                        ) ==> node_index != HEAD_INDEX && key_le(
                            self.nodes@[m].key@,
                            self.nodes@[node_index as int].key@,
                        ),
                decreases later(self.nodes@, node_index as int).len(),
            {
                proof {
                    lemma_key_order();
                    assert(linked(self.nodes@, self.heights@, node_index as int, level as int));
                }
                match self.nodes[node_index].next[level] {
                    Some(next_index) => {
                        if compare_keys(self.nodes[next_index].key.as_slice(), key)
                            != KeyOrder::Before {
                            break;
                        }
                        proof {
                            lemma_later_shrinks(self.nodes@, node_index as int, next_index as int);
                        }
                        node_index = next_index;
                    },
                    None => {
                        break;
                    },
                }
            }
            previous_nodes[level] = node_index;
            assert forall|l: int| level <= l < MAX_LEVEL implies #[trigger] Self::precede(
                self.nodes@,
                self.heights@,
                previous_nodes@,
                l,
                key@,
            ) by {
                if l > level {
                    assert(Self::precede(self.nodes@, self.heights@, above, l, key@));
                }
            }
        }
        assert(Self::precede(self.nodes@, self.heights@, previous_nodes@, 0, key@));
        (previous_nodes, self.nodes[previous_nodes[0]].next[0])
    }

    /// As `find`, but with the node that holds `key` itself, if there is one.
    fn find_exact(&self, key: &[u8]) -> (found: ([usize; MAX_LEVEL], Option<usize>))
        requires
            intact(self.nodes@, self.heights@),
        ensures
            forall|level: int|
                0 <= level < MAX_LEVEL ==> #[trigger] Self::precede(
                    self.nodes@,
                    self.heights@,
                    found.0@,
                    level,
                    key@,
                ),
            match found.1 {
                Some(index) => 0 < index < self.nodes@.len() && self.nodes@[index as int].key@
                    == key@,
                None => !holds(self.nodes@, key@),
            },
    {
        let (previous_nodes, candidate_index) = self.find(key);
        proof {
            lemma_key_order();
            let p = previous_nodes@[0] as int;
            assert(Self::precede(self.nodes@, self.heights@, previous_nodes@, 0, key@));
            assert(linked(self.nodes@, self.heights@, p, 0));
            assert forall|m: int|
                0 < m < self.nodes@.len() && #[trigger] self.nodes@[m].key@
                    == key@ implies candidate_index is Some
                && self.nodes@[candidate_index->0 as int].key@ == key@ by {
                assert(on_level(self.nodes@, self.heights@, 0, m));
                assert(after(self.nodes@, p, m));
                let c = candidate_index->0 as int;
                if self.nodes@[c].key@ != key@ {
                    assert(key_lt(self.nodes@[c].key@, key@));
                    assert(on_level(self.nodes@, self.heights@, 0, c));
                }
            }
        }
        match candidate_index {
            Some(index) => {
                if compare_keys(self.nodes[index].key.as_slice(), key) == KeyOrder::Same {
                    (previous_nodes, Some(index))
                } else {
                    (previous_nodes, None)
                }
            },
            None => (previous_nodes, None),
        }
    }
}

/// Each node's entry is the map's entry of its key.
proof fn lemma_contents(nodes: Seq<Node>, heights: Seq<nat>)
    requires
        intact(nodes, heights),
    ensures
        forall|i: int|
            0 < i < nodes.len() ==> contents(nodes).contains_key(#[trigger] nodes[i].key@)
                && contents(nodes)[nodes[i].key@] == nodes[i].val@,
{
    assert forall|i: int| 0 < i < nodes.len() implies contents(nodes).contains_key(
        #[trigger] nodes[i].key@,
    ) && contents(nodes)[nodes[i].key@] == nodes[i].val@ by {
        let m = node_of(nodes, nodes[i].key@);
        assert(0 < m < nodes.len() && nodes[m].key@ == nodes[i].key@);
    }
}

/// Whether `new` is `old` with node `n` appended and linked on the levels below `height`,
/// after `previous` on each.
spec fn spliced(
    old_nodes: Seq<Node>,
    nodes: Seq<Node>,
    previous: Seq<usize>,
    height: int,
) -> bool {
    let n = old_nodes.len() as int;
    &&& nodes.len() == n + 1
    &&& forall|i: int|
        0 <= i < n ==> (#[trigger] nodes[i]).key == old_nodes[i].key && nodes[i].val
            == old_nodes[i].val
    &&& forall|i: int, level: int|
        0 <= i < n && 0 <= level < MAX_LEVEL ==> #[trigger] nodes[i].next@[level] == (if level
            < height && i == previous[level] {
            Some(n as usize)
        } else {
            old_nodes[i].next@[level]
        })
    &&& forall|level: int|
        0 <= level < height ==> #[trigger] nodes[n].next@[level]
            == old_nodes[previous[level] as int].next@[level]
}

/// Splicing a node with a new key into an intact list leaves it intact.
proof fn lemma_splice_keeps_intact(
    old_nodes: Seq<Node>,
    nodes: Seq<Node>,
    old_heights: Seq<nat>,
    previous: Seq<usize>,
    height: nat,
    key: Seq<u8>,
)
    requires
        intact(old_nodes, old_heights),
        1 <= height <= MAX_LEVEL,
        previous.len() == MAX_LEVEL,
        old_nodes.len() <= usize::MAX,
        forall|level: int|
            0 <= level < MAX_LEVEL ==> #[trigger] SkipListMemtable::precede(
                old_nodes,
                old_heights,
                previous,
                level,
                key,
            ),
        !holds(old_nodes, key),
        spliced(old_nodes, nodes, previous, height as int),
        nodes.last().key@ == key,
    ensures
        intact(nodes, old_heights.push(height)),
        contents(nodes) == contents(old_nodes).insert(key, nodes.last().val@),
{
    lemma_key_order();
    let n = old_nodes.len() as int;
    let heights = old_heights.push(height);
    assert forall|i: int, level: int|
        0 <= i < nodes.len() && 0 <= level < heights[i] implies #[trigger] linked(
        nodes,
        heights,
        i,
        level,
    ) by {
        let p = previous[level] as int;
        assert(SkipListMemtable::precede(old_nodes, old_heights, previous, level, key));
        assert(linked(old_nodes, old_heights, p, level));
        assert forall|m: int| #[trigger]
            on_level(nodes, heights, level, m) && m != n implies on_level(
            old_nodes,
            old_heights,
            level,
            m,
        ) && nodes[m].key == old_nodes[m].key by {}
        if i < n {
            assert(linked(old_nodes, old_heights, i, level));
            assert(nodes[i].key == old_nodes[i].key);
        }
        match nodes[i].next@[level] {
            Some(j) => {
                if j < n {
                    assert(on_level(old_nodes, old_heights, level, j as int));
                    assert(nodes[j as int].key == old_nodes[j as int].key);
                }
                if i < n && i != p {
                    if level < height && after(nodes, i, n) {
                        if i != HEAD_INDEX {
                            assert(on_level(old_nodes, old_heights, level, i));
                        }
                        assert(on_level(old_nodes, old_heights, level, p));
                        assert(after(old_nodes, i, p));
                    }
                }
            },
            None => {
                if i < n && i != p {
                    if level < height && after(nodes, i, n) {
                        if i != HEAD_INDEX {
                            assert(on_level(old_nodes, old_heights, level, i));
                        }
                        assert(on_level(old_nodes, old_heights, level, p));
                        assert(after(old_nodes, i, p));
                    }
                }
            },
        }
    }
    assert forall|i: int, j: int|
        0 < i < nodes.len() && 0 < j < nodes.len() && i != j implies #[trigger] nodes[i].key@
        != #[trigger] nodes[j].key@ by {
        if i < n {
            assert(old_nodes[i].key@ != key);
        }
        if j < n {
            assert(old_nodes[j].key@ != key);
        }
        if i < n && j < n {
            assert(old_nodes[i].key@ != old_nodes[j].key@);
        }
    }
    assert(intact(nodes, heights));
    lemma_contents(nodes, heights);
    lemma_contents(old_nodes, old_heights);
    assert forall|k: Seq<u8>| holds(nodes, k) <==> (k == key || holds(old_nodes, k)) by {
        if k == key {
            assert(nodes[n].key@ == k);
        }
        if holds(old_nodes, k) {
            assert(nodes[node_of(old_nodes, k)].key@ == k);
        }
        if holds(nodes, k) && k != key {
            assert(old_nodes[node_of(nodes, k)].key@ == k);
        }
    }
    assert(contents(nodes) =~= contents(old_nodes).insert(key, nodes.last().val@)) by {
        assert forall|k: Seq<u8>| holds(nodes, k) implies contents(nodes)[k] == contents(
            old_nodes,
        ).insert(key, nodes.last().val@)[k] by {
            if k == key {
                assert(nodes[n].key@ == k);
            } else {
                let m = node_of(old_nodes, k);
                assert(old_nodes[m].key@ == k);
                assert(nodes[m].key@ == k);
            }
        }
    }
}

/// Giving a node another value leaves the list intact.
proof fn lemma_overwrite_keeps_intact(
    old_nodes: Seq<Node>,
    nodes: Seq<Node>,
    heights: Seq<nat>,
    index: int,
)
    requires
        intact(old_nodes, heights),
        0 < index < old_nodes.len(),
        nodes.len() == old_nodes.len(),
        forall|i: int|
            0 <= i < nodes.len() ==> (#[trigger] nodes[i]).key == old_nodes[i].key && nodes[i].next
                == old_nodes[i].next && (i != index ==> nodes[i].val == old_nodes[i].val),
    ensures
        intact(nodes, heights),
        contents(nodes) == contents(old_nodes).insert(nodes[index].key@, nodes[index].val@),
{
    assert forall|i: int, level: int|
        0 <= i < nodes.len() && 0 <= level < heights[i] implies #[trigger] linked(
        nodes,
        heights,
        i,
        level,
    ) by {
        assert(linked(old_nodes, heights, i, level));
        assert forall|m: int| #[trigger] on_level(nodes, heights, level, m) implies on_level(
            old_nodes,
            heights,
            level,
            m,
        ) && nodes[m].key == old_nodes[m].key by {}
    }
    assert(intact(nodes, heights));
    lemma_contents(nodes, heights);
    lemma_contents(old_nodes, heights);
    assert forall|k: Seq<u8>| holds(nodes, k) <==> holds(old_nodes, k) by {
        if holds(old_nodes, k) {
            assert(nodes[node_of(old_nodes, k)].key@ == k);
        }
        if holds(nodes, k) {
            assert(old_nodes[node_of(nodes, k)].key@ == k);
        }
    }
    assert(contents(nodes) =~= contents(old_nodes).insert(
        nodes[index].key@,
        nodes[index].val@,
    )) by {
        assert forall|k: Seq<u8>| holds(nodes, k) implies contents(nodes)[k] == contents(
            old_nodes,
        ).insert(nodes[index].key@, nodes[index].val@)[k] by {
            let m = node_of(nodes, k);
            assert(nodes[m].key@ == k);
            assert(old_nodes[m].key@ == k);
        }
    }
}

impl SkipListMemtable {
    /// The number of levels of a new node for which the coins fell as `flips`: one,
    /// and one more for each head before the first tail, up to all of them.
    pub fn height_for(flips: &[bool]) -> (height: usize)
        ensures
            1 <= height <= MAX_LEVEL,
            height <= flips@.len() + 1,
            forall|i: int| 0 <= i < height - 1 ==> #[trigger] flips@[i],
            height == MAX_LEVEL || height == flips@.len() + 1 || !flips@[height - 1],
    {
        let mut height: usize = 1;
        while height < MAX_LEVEL && height - 1 < flips.len() && flips[height - 1]
            invariant
                1 <= height <= MAX_LEVEL,
                height <= flips@.len() + 1,
                forall|i: int| 0 <= i < height - 1 ==> #[trigger] flips@[i],
            decreases MAX_LEVEL - height,
        {
            height += 1;
        }
        height
    }

    /// Flips coins for the number of levels of a new node, up to the first tail
    /// or until all levels are reached, and counts the levels by `height_for`.
    ///
    /// How the coins fall is left to chance, so that every number of levels may
    /// come back.
    fn draw_height(&mut self) -> (height: usize)
        ensures
            1 <= height <= MAX_LEVEL,
            final(self).nodes == old(self).nodes,
            final(self).heights == old(self).heights,
    {
        let mut flips: Vec<bool> = Vec::new();
        let mut heads: bool = true;
        while heads && flips.len() < MAX_LEVEL - 1
            invariant
                self.nodes == old(self).nodes,
                self.heights == old(self).heights,
                flips@.len() <= MAX_LEVEL - 1,
            decreases MAX_LEVEL - flips@.len(),
        {
            heads = flip(&mut self.rng);
            flips.push(heads);
        }
        Self::height_for(flips.as_slice())
    }

    /// Links a new node for `key` on the lowest `height` levels, each time after
    /// the node that `previous_nodes` gives for the level.
    fn insert(
        &mut self,
        key: &[u8],
        val: Value,
        previous_nodes: &[usize; MAX_LEVEL],
        height: usize,
    )
        requires
            intact(old(self).nodes@, old(self).heights@),
            1 <= height <= MAX_LEVEL,
            forall|level: int|
                0 <= level < MAX_LEVEL ==> #[trigger] Self::precede(
                    old(self).nodes@,
                    old(self).heights@,
                    previous_nodes@,
                    level,
                    key@,
                ),
            !holds(old(self).nodes@, key@),
        ensures
            intact(final(self).nodes@, final(self).heights@),
            final(self).heights@ == old(self).heights@.push(height as nat),
            contents(final(self).nodes@) == contents(old(self).nodes@).insert(key@, val@),
    {
        let mut node = Node {
            key: vstd::slice::slice_to_vec(key),
            val,
            next: [None; MAX_LEVEL],
        };
        let ghost old_nodes = self.nodes@;
        let mut level: usize = 0;
        let new_index: usize = self.nodes.len();
        while level < height
            invariant
                level <= height <= MAX_LEVEL,
                new_index == old_nodes.len(),
                old_nodes == old(self).nodes@,
                self.heights == old(self).heights,
                self.nodes@.len() == old_nodes.len(),
                node.key@ == key@,
                node.val == val,
                forall|l: int|
                    0 <= l < MAX_LEVEL ==> #[trigger] Self::precede(
                        old_nodes,
                        old(self).heights@,
                        previous_nodes@,
                        l,
                        key@,
                    ),
                forall|i: int|
                    0 <= i < old_nodes.len() ==> (#[trigger] self.nodes@[i]).key == old_nodes[i].key
                        && self.nodes@[i].val == old_nodes[i].val,
                forall|i: int, l: int|
                    0 <= i < old_nodes.len() && 0 <= l < MAX_LEVEL
                        ==> #[trigger] self.nodes@[i].next@[l] == (if l < level && i
                        == previous_nodes@[l] {
                        Some(new_index)
                    } else {
                        old_nodes[i].next@[l]
                    }),
                forall|l: int|
                    0 <= l < level ==> #[trigger] node.next@[l]
                        == old_nodes[previous_nodes@[l] as int].next@[l],
            decreases height - level,
        {
            assert(Self::precede(
                old_nodes,
                old(self).heights@,
                previous_nodes@,
                level as int,
                key@,
            ));
            let previous: usize = previous_nodes[level];
            node.next[level] = self.nodes[previous].next[level];
            self.nodes[previous].next[level] = Some(new_index);
            level += 1;
        }
        self.nodes.push(node);
        proof {
            lemma_splice_keeps_intact(
                old_nodes,
                self.nodes@,
                self.heights@,
                previous_nodes@,
                height as nat,
                key@,
            );
        }
        self.heights = Ghost(self.heights@.push(height as nat));
    }

    /// Gives `key` the value `val`, in its node or in a new one of random height.
    fn upsert(&mut self, key: &[u8], val: Value)
        requires
            intact(old(self).nodes@, old(self).heights@),
        ensures
            intact(final(self).nodes@, final(self).heights@),
            contents(final(self).nodes@) == contents(old(self).nodes@).insert(key@, val@),
            forall|listed: Seq<RecordView>| #[trigger]
                lists(listed, contents(old(self).nodes@)) ==> one_item_written(
                    listed,
                    listing(contents(final(self).nodes@)),
                    RecordView { key: key@, val: val@ },
                ),
    {
        proof {
            assert forall|listed: Seq<RecordView>| #[trigger]
                lists(listed, contents(old(self).nodes@)) implies one_item_written(
                listed,
                listing(contents(old(self).nodes@).insert(key@, val@)),
                RecordView { key: key@, val: val@ },
            ) by {
                law_write_changes_one_item(
                    listed,
                    contents(old(self).nodes@),
                    RecordView { key: key@, val: val@ },
                );
            }
        }
        let (previous_nodes, existing) = self.find_exact(key);
        match existing {
            Some(index) => {
                let ghost old_nodes = self.nodes@;
                self.nodes[index].val = val;
                proof {
                    lemma_overwrite_keeps_intact(
                        old_nodes,
                        self.nodes@,
                        self.heights@,
                        index as int,
                    );
                }
            },
            None => {
                let height: usize = self.draw_height();
                self.insert(key, val, &previous_nodes, height);
            },
        }
    }
}

/// Walks the lowest level of the list.
struct SkipListIterator<'a> {
    nodes: &'a Vec<Node>,
    curr_index: Option<usize>,
    heights: Ghost<Seq<nat>>,
}

impl<'a> SkipListIterator<'a> {
    spec fn wf(&self) -> bool {
        &&& intact(self.nodes@, self.heights@)
        &&& self.curr_index matches Some(index) ==> 0 < index < self.nodes@.len()
    }

    /// The entries still to come: those from the current node on.
    spec fn remaining(&self) -> Map<Seq<u8>, Option<Seq<u8>>> {
        Map::new(
            |key: Seq<u8>|
                holds(self.nodes@, key) && self.curr_index is Some && key_le(
                    self.nodes@[self.curr_index->0 as int].key@,
                    key,
                ),
            |key: Seq<u8>| contents(self.nodes@)[key],
        )
    }

    /// The number of entries still to come.
    spec fn left(&self) -> nat {
        match self.curr_index {
            Some(index) => 1 + later(self.nodes@, index as int).len(),
            None => 0,
        }
    }

    /// Returns the entry with the least key of those still to come.
    fn next(&mut self) -> (item: Option<(&'a [u8], Option<&'a [u8]>)>)
        requires
            old(self).wf(),
        ensures
            final(self).wf(),
            final(self).nodes == old(self).nodes,
            match item {
                Some(entry) => {
                    &&& old(self).remaining().contains_key(entry.0@)
                    &&& old(self).remaining()[entry.0@] == entry_view(entry).val
                    &&& forall|key: Seq<u8>| #[trigger]
                        old(self).remaining().contains_key(key) ==> key_le(entry.0@, key)
                    &&& final(self).remaining() == old(self).remaining().remove(entry.0@)
                    &&& final(self).left() < old(self).left()
                },
                None => {
                    &&& old(self).remaining() == Map::<Seq<u8>, Option<Seq<u8>>>::empty()
                    &&& final(self).remaining() == old(self).remaining()
                },
            },
    {
        match self.curr_index {
            Some(index) => {
                let node = &self.nodes[index];
                let val = match &node.val {
                    Value::Live(v) => Some(v.as_slice()),
                    Value::Tombstone => None,
                };
                proof {
                    lemma_key_order();
                    lemma_contents(self.nodes@, self.heights@);
                    assert(linked(self.nodes@, self.heights@, index as int, 0));
                    if let Some(j) = node.next@[0] {
                        lemma_later_shrinks(self.nodes@, index as int, j as int);
                    }
                }
                self.curr_index = node.next[0];
                proof {
                    assert forall|key: Seq<u8>| #[trigger]
                        self.remaining().contains_key(key) <==> old(
                        self,
                    ).remaining().contains_key(key) && key != node.key@ by {
                        if holds(self.nodes@, key) {
                            let m = node_of(self.nodes@, key);
                            assert(self.nodes@[m].key@ == key);
                            assert(on_level(self.nodes@, self.heights@, 0, m));
                        }
                    }
                    assert(self.remaining() =~= old(self).remaining().remove(node.key@));
                }
                Some((node.key.as_slice(), val))
            },
            None => {
                assert(self.remaining() =~= Map::<Seq<u8>, Option<Seq<u8>>>::empty());
                None
            },
        }
    }
}

impl SkipListMemtable {
    /// An empty memtable that flips its coins with `rng`.
    pub fn with_rng(rng: StdRng) -> (table: Self)
        ensures
            table.wf(),
            table.entries() == Map::<Seq<u8>, Option<Seq<u8>>>::empty(),
    {
        let mut nodes: Vec<Node> = Vec::new();
        nodes.push(Self::build_head_node());
        let table = SkipListMemtable {
            nodes,
            rng,
            heights: Ghost(Seq::empty().push(MAX_LEVEL as nat)),
        };
        assert(table.entries() =~= Map::<Seq<u8>, Option<Seq<u8>>>::empty());
        table
    }

    fn build_head_node() -> (node: Node)
        ensures
            forall|level: int| 0 <= level < MAX_LEVEL ==> #[trigger] node.next@[level] is None,
    {
        Node { key: Vec::new(), val: Value::Live(Vec::new()), next: [None; MAX_LEVEL] }
    }
}

impl Memtable for SkipListMemtable {
    closed spec fn entries(&self) -> Map<Seq<u8>, Option<Seq<u8>>> {
        contents(self.nodes@)
    }

    closed spec fn wf(&self) -> bool {
        intact(self.nodes@, self.heights@)
    }

    fn put(&mut self, key: &[u8], val: &[u8])
        ensures
            forall|listed: Seq<RecordView>| #[trigger]
                lists(listed, old(self).entries()) ==> one_item_written(
                    listed,
                    listing(final(self).entries()),
                    RecordView { key: key@, val: Some(val@) },
                ),
    {
        self.upsert(key, Value::Live(vstd::slice::slice_to_vec(val)));
    }

    fn delete(&mut self, key: &[u8])
        ensures
            forall|listed: Seq<RecordView>| #[trigger]
                lists(listed, old(self).entries()) ==> one_item_written(
                    listed,
                    listing(final(self).entries()),
                    RecordView { key: key@, val: None },
                ),
    {
        self.upsert(key, Value::Tombstone);
    }

    fn lookup(&self, key: &[u8]) -> (state: EntryState) {
        let (_, existing) = self.find_exact(key);
        proof {
            lemma_contents(self.nodes@, self.heights@);
        }
        match existing {
            Some(index) => match &self.nodes[index].val {
                Value::Live(val) => EntryState::Live(vstd::slice::slice_to_vec(val.as_slice())),
                Value::Tombstone => EntryState::Tombstone,
            },
            None => EntryState::Absent,
        }
    }

    fn iter(&self) -> (listed: Vec<(&[u8], Option<&[u8]>)>) {
        let mut entries = SkipListIterator {
            nodes: &self.nodes,
            curr_index: self.nodes[HEAD_INDEX].next[0],
            heights: self.heights,
        };
        let mut listed: Vec<(&[u8], Option<&[u8]>)> = Vec::new();
        proof {
            lemma_key_order();
            assert(linked(self.nodes@, self.heights@, 0, 0));
            assert forall|key: Seq<u8>| #[trigger]
                self.entries().contains_key(key) implies entries.remaining().contains_key(key) by {
                let m = node_of(self.nodes@, key);
                assert(self.nodes@[m].key@ == key);
                assert(on_level(self.nodes@, self.heights@, 0, m));
            }
        }
        loop
            invariant
                entries.wf(),
                entries.nodes == &self.nodes,
                forall|i: int, j: int|
                    0 <= i < j < listed@.len() ==> key_lt(
                        #[trigger] listed@[i].0@,
                        #[trigger] listed@[j].0@,
                    ),
                forall|i: int|
                    0 <= i < listed@.len() ==> self.entries().contains_key(
                        #[trigger] listed@[i].0@,
                    ) && self.entries()[listed@[i].0@] == entry_view(listed@[i]).val,
                forall|key: Seq<u8>| #[trigger]
                    self.entries().contains_key(key) ==> entries.remaining().contains_key(key) || (
                    exists|i: int| 0 <= i < listed@.len() && #[trigger] listed@[i].0@ == key),
                forall|i: int, key: Seq<u8>|
                    0 <= i < listed@.len() && #[trigger] entries.remaining().contains_key(key)
                        ==> key_lt(#[trigger] listed@[i].0@, key),
            ensures
                entries.remaining() == Map::<Seq<u8>, Option<Seq<u8>>>::empty(),
            decreases entries.left(),
        {
            let ghost old_listed = listed@;
            match entries.next() {
                Some(entry) => {
                    listed.push(entry);
                    proof {
                        lemma_key_order();
                        assert(listed@.last() == entry);
                        assert forall|key: Seq<u8>| #[trigger]
                            self.entries().contains_key(
                            key,
                        ) implies entries.remaining().contains_key(key) || (exists|i: int|
                            0 <= i < listed@.len() && #[trigger] listed@[i].0@ == key) by {
                            if exists|i: int|
                                0 <= i < old_listed.len() && #[trigger] old_listed[i].0@ == key {
                                let i = choose|i: int|
                                    0 <= i < old_listed.len() && #[trigger] old_listed[i].0@
                                        == key;
                                assert(listed@[i].0@ == key);
                            } else if key == entry.0@ {
                                assert(listed@[old_listed.len() as int].0@ == key);
                            }
                        }
                    }
                },
                None => {
                    break;
                },
            }
        }
        proof {
            let view = listing_view(listed@);
            assert forall|i: int| 0 <= i < view.len() implies view[i].key == listed@[i].0@ by {}
            assert forall|key: Seq<u8>| #[trigger]
                self.entries().contains_key(key) implies exists|i: int|
                0 <= i < view.len() && #[trigger] view[i].key == key by {
                let i = choose|i: int| 0 <= i < listed@.len() && #[trigger] listed@[i].0@ == key;
                assert(view[i].key == key);
            }
            assert forall|i: int, j: int| 0 <= i < j < view.len() implies key_lt(
                #[trigger] view[i].key,
                #[trigger] view[j].key,
            ) by {
                assert(key_lt(listed@[i].0@, listed@[j].0@));
            }
            assert forall|i: int| 0 <= i < view.len() implies self.entries().contains_key(
                #[trigger] view[i].key,
            ) && self.entries()[view[i].key] == view[i].val by {
                assert(self.entries().contains_key(listed@[i].0@));
            }
        }
        listed
    }

    fn clear(&mut self) {
        let mut nodes: Vec<Node> = Vec::new();
        nodes.push(Self::build_head_node());
        self.nodes = nodes;
        self.heights = Ghost(Seq::empty().push(MAX_LEVEL as nat));
        assert(self.entries() =~= Map::<Seq<u8>, Option<Seq<u8>>>::empty());
    }
}

impl Default for SkipListMemtable {
    /// An empty memtable that flips its coins with a generator of its own.
    fn default() -> (table: Self)
        ensures
            table.wf(),
            table.entries() == Map::<Seq<u8>, Option<Seq<u8>>>::empty(),
    {
        match seeded_by_os() {
            Some(rng) => Self::with_rng(rng),
            None => Self::with_rng(seeded(FALLBACK_SEED)),
        }
    }
}

} // verus!
