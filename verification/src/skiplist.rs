//! Sorted set of byte strings with fast search.
//!
//! Each node has a height. At each level below it the node links to the next
//! node that is at least as tall, so that a search can take long steps first and
//! short ones later.

use vstd::prelude::*;

use crate::comparator;
use crate::comparator::Comparator;

verus! {

pub const MAX_HEIGHT: usize = 12;

pub const BRANCHING: u32 = 4;

/// The next state of the generator: 16807 times the state, modulo the largest
/// 31-bit number.
pub open spec fn next_state(state: u32) -> u32 {
    let product = state as int * 16807;
    let folded = product / 0x8000_0000 + product % 0x8000_0000;
    if folded > 0x7fff_ffff {
        (folded - 0x7fff_ffff) as u32
    } else {
        folded as u32
    }
}

/// The height that a state of the generator gives to a node that has reached
/// `height`, and the state afterwards: one node in four goes one level higher.
pub open spec fn drawn(state: u32, height: nat) -> (nat, u32)
    decreases MAX_HEIGHT - height,
{
    if height >= MAX_HEIGHT {
        (height, state)
    } else {
        let next = next_state(state);
        if next % BRANCHING == 0 {
            drawn(next, height + 1)
        } else {
            (height, next)
        }
    }
}

/// A node. Link 0 is none: the first node, the head, is never linked to.
struct Node {
    key: Vec<u8>,
    next: Vec<usize>,
}

/// The first of the nodes `ids` that is taller than `level`; 0 if none is.
spec fn first_tall(heights: Seq<nat>, ids: Seq<int>, level: int) -> int
    decreases ids.len(),
{
    if ids.len() == 0 {
        0
    } else if heights[ids[0]] > level {
        ids[0]
    } else {
        first_tall(heights, ids.skip(1), level)
    }
}

/// Whether none of the nodes is taller than `level`.
spec fn none_tall(heights: Seq<nat>, ids: Seq<int>, level: int) -> bool {
    forall|i: int| 0 <= i < ids.len() ==> heights[#[trigger] ids[i]] <= level
}

/// The first tall node behind others that are not.
proof fn lemma_first_tall_skips(heights: Seq<nat>, front: Seq<int>, rest: Seq<int>, level: int)
    requires
        none_tall(heights, front, level),
    ensures
        first_tall(heights, front + rest, level) == first_tall(heights, rest, level),
    decreases front.len(),
{
    if front.len() == 0 {
        assert(front + rest =~= rest);
    } else {
        assert(heights[front[0]] <= level);
        assert((front + rest).skip(1) =~= front.skip(1) + rest);
        assert forall|i: int| 0 <= i < front.skip(1).len() implies heights[#[trigger] front.skip(
            1,
        )[i]] <= level by {
            assert(front.skip(1)[i] == front[i + 1]);
        }
        lemma_first_tall_skips(heights, front.skip(1), rest, level);
    }
}

/// A tall node among the first ones hides all that follows.
proof fn lemma_first_tall_found(
    heights: Seq<nat>,
    front: Seq<int>,
    rest: Seq<int>,
    more: Seq<int>,
    level: int,
)
    requires
        !none_tall(heights, front, level),
    ensures
        first_tall(heights, front + rest, level) == first_tall(heights, front + more, level),
    decreases front.len(),
{
    if front.len() > 0 {
        assert((front + rest).skip(1) =~= front.skip(1) + rest);
        assert((front + more).skip(1) =~= front.skip(1) + more);
        if heights[front[0]] <= level {
            let i = choose|i: int| 0 <= i < front.len() && heights[#[trigger] front[i]] > level;
            assert(front.skip(1)[i - 1] == front[i]);
            lemma_first_tall_found(heights, front.skip(1), rest, more, level);
        }
    }
}

/// Where the first tall node stands, and that none before it is tall.
proof fn lemma_first_tall_index(heights: Seq<nat>, ids: Seq<int>, level: int) -> (index: int)
    ensures
        none_tall(heights, ids, level) ==> first_tall(heights, ids, level) == 0 && index
            == ids.len(),
        !none_tall(heights, ids, level) ==> {
            &&& 0 <= index < ids.len()
            &&& ids[index] == first_tall(heights, ids, level)
            &&& heights[ids[index]] > level
        },
        none_tall(heights, ids.take(index), level),
    decreases ids.len(),
{
    if ids.len() == 0 {
        0
    } else if heights[ids[0]] > level {
        assert(heights[ids[0]] > level);
        0
    } else {
        let rest = ids.skip(1);
        let index = lemma_first_tall_index(heights, rest, level) + 1;
        if none_tall(heights, rest, level) {
            assert forall|i: int| 0 <= i < ids.len() implies heights[#[trigger] ids[i]] <= level by {
                if i > 0 {
                    assert(ids[i] == rest[i - 1]);
                }
            }
        } else {
            let i = choose|i: int| 0 <= i < rest.len() && heights[#[trigger] rest[i]] > level;
            assert(heights[ids[i + 1]] > level);
        }
        assert forall|i: int| 0 <= i < index implies heights[#[trigger] ids.take(index)[i]]
            <= level by {
            if i > 0 {
                assert(rest.take(index - 1)[i - 1] == ids[i]);
            }
        }
        index
    }
}

/// More nodes elsewhere change nothing.
proof fn lemma_first_tall_same(
    heights: Seq<nat>,
    more: Seq<nat>,
    ids: Seq<int>,
    level: int,
)
    requires
        heights.len() <= more.len(),
        forall|i: int| 0 <= i < heights.len() ==> #[trigger] heights[i] == more[i],
        forall|i: int| 0 <= i < ids.len() ==> 0 <= #[trigger] ids[i] < heights.len(),
    ensures
        first_tall(heights, ids, level) == first_tall(more, ids, level),
        none_tall(heights, ids, level) == none_tall(more, ids, level),
    decreases ids.len(),
{
    if ids.len() > 0 {
        assert(heights[ids[0]] == more[ids[0]]);
        assert forall|i: int| 0 <= i < ids.skip(1).len() implies 0 <= #[trigger] ids.skip(1)[i]
            < heights.len() by {
            assert(ids.skip(1)[i] == ids[i + 1]);
        }
        lemma_first_tall_same(heights, more, ids.skip(1), level);
        assert forall|i: int| 0 <= i < ids.len() implies heights[#[trigger] ids[i]]
            == more[ids[i]] by {}
    }
}

/// A sorted set of byte strings.
pub struct SkipList<C: Comparator> {
    nodes: Vec<Node>,
    comparator: C,
    height: usize,
    rng_state: u32,
    /// The nodes in order, the head first.
    order: Ghost<Seq<int>>,
}

impl<C: Comparator> SkipList<C> {
    /// The heights of the nodes.
    spec fn heights(&self) -> Seq<nat> {
        Seq::new(self.nodes@.len(), |i: int| self.nodes@[i].next@.len())
    }

    /// The key of the node at a place in the order.
    spec fn key_at(&self, place: int) -> Seq<u8> {
        self.nodes@[self.order@[place]].key@
    }

    /// The keys in order.
    pub closed spec fn keys(&self) -> Seq<Seq<u8>> {
        Seq::new((self.order@.len() - 1) as nat, |i: int| self.key_at(i + 1))
    }

    /// The comparator of the keys.
    pub closed spec fn key_order(&self) -> C {
        self.comparator
    }

    /// The nodes are linked at each level.
    spec fn linked(&self) -> bool {
        forall|place: int, level: int|
            #![trigger self.nodes@[self.order@[place]].next@[level]]
            0 <= place < self.order@.len() && 0 <= level < self.heights()[self.order@[place]]
                ==> self.nodes@[self.order@[place]].next@[level] == first_tall(
                self.heights(),
                self.order@.skip(place + 1),
                level,
            )
    }

    /// Each node stands at one place in the order.
    spec fn placed(&self) -> bool {
        &&& self.order@.len() == self.nodes@.len()
        &&& self.order@.len() > 0
        &&& self.order@[0] == 0
        &&& forall|i: int|
            0 <= i < self.order@.len() ==> 0 <= #[trigger] self.order@[i] < self.nodes@.len()
        &&& forall|i: int, j: int|
            0 <= i < j < self.order@.len() ==> #[trigger] self.order@[i] != #[trigger] self.order@[j]
    }

    /// The heights are in range.
    spec fn ranged(&self) -> bool {
        &&& 1 <= self.height <= MAX_HEIGHT
        &&& self.nodes@[0].next@.len() == MAX_HEIGHT
        &&& forall|i: int|
            0 < i < self.nodes@.len() ==> 1 <= (#[trigger] self.nodes@[i]).next@.len()
                <= self.height
    }

    /// The keys rise.
    spec fn rising(&self) -> bool {
        &&& forall|i: int|
            0 < i < self.order@.len() ==> self.comparator.admits(#[trigger] self.key_at(i))
        &&& forall|i: int, j: int|
            0 < i < j < self.order@.len() ==> self.comparator.less(
                #[trigger] self.key_at(i),
                #[trigger] self.key_at(j),
            )
    }

    /// What the list keeps true of itself.
    pub closed spec fn wf(&self) -> bool {
        &&& self.placed()
        &&& self.ranged()
        &&& self.linked()
        &&& self.rising()
        &&& self.rng_state <= 0x7fff_ffff
    }

    /// The keys are admitted and rise.
    pub proof fn lemma_keys(&self)
        requires
            self.wf(),
        ensures
            forall|i: int|
                0 <= i < self.keys().len() ==> self.key_order().admits(#[trigger] self.keys()[i]),
            forall|i: int, j: int|
                0 <= i < j < self.keys().len() ==> self.key_order().less(
                    #[trigger] self.keys()[i],
                    #[trigger] self.keys()[j],
                ),
    {
        assert forall|i: int| 0 <= i < self.keys().len() implies self.key_order().admits(
            #[trigger] self.keys()[i],
        ) by {
            assert(self.comparator.admits(self.key_at(i + 1)));
        }
        assert forall|i: int, j: int| 0 <= i < j < self.keys().len() implies self.key_order().less(
            #[trigger] self.keys()[i],
            #[trigger] self.keys()[j],
        ) by {
            assert(self.comparator.less(self.key_at(i + 1), self.key_at(j + 1)));
        }
    }

    /// Whether no key in the list is equal to `key` in the order.
    pub open spec fn lacks(&self, key: Seq<u8>) -> bool {
        forall|i: int|
            0 <= i < self.keys().len() ==> self.key_order().less(#[trigger] self.keys()[i], key)
                || self.key_order().less(key, self.keys()[i])
    }

    pub fn new(comparator: C) -> (list: Self)
        ensures
            list.wf(),
            list.keys() == Seq::<Seq<u8>>::empty(),
            list.key_order() == comparator,
    {
        let mut next: Vec<usize> = Vec::new();
        let mut level: usize = 0;
        while level < MAX_HEIGHT
            invariant
                level <= MAX_HEIGHT,
                next@.len() == level,
                forall|i: int| 0 <= i < level ==> next@[i] == 0,
            decreases MAX_HEIGHT - level,
        {
            next.push(0);
            level = level + 1;
        }
        let mut nodes: Vec<Node> = Vec::new();
        nodes.push(Node { key: Vec::new(), next });
        let list = SkipList {
            nodes,
            comparator,
            height: 1,
            rng_state: 0x5ead_beef,
            order: Ghost(Seq::empty().push(0)),
        };
        assert(list.keys() =~= Seq::<Seq<u8>>::empty());
        list
    }

    /// Makes room for more keys. The list grows by itself, so nothing is done.
    pub fn reserve(&mut self, additional: usize)
        ensures
            *final(self) == *old(self),
    {
        let _ = additional;
    }

    fn random_next(&mut self) -> (state: u32)
        requires
            old(self).rng_state <= 0x7fff_ffff,
        ensures
            state == next_state(old(self).rng_state),
            state <= 0x7fff_ffff,
            *final(self) == (SkipList { rng_state: state, ..*old(self) }),
    {
        let product: u64 = self.rng_state as u64 * 16807;
        let folded: u64 = product / 0x8000_0000 + product % 0x8000_0000;
        let state: u32 = if folded > 0x7fff_ffff {
            (folded - 0x7fff_ffff) as u32
        } else {
            folded as u32
        };
        self.rng_state = state;
        state
    }

    fn random_height(&mut self) -> (height: usize)
        requires
            old(self).rng_state <= 0x7fff_ffff,
        ensures
            1 <= height <= MAX_HEIGHT,
            (height as nat, final(self).rng_state) == drawn(old(self).rng_state, 1),
            final(self).rng_state <= 0x7fff_ffff,
            *final(self) == (SkipList { rng_state: final(self).rng_state, ..*old(self) }),
    {
        let mut height: usize = 1;
        let mut higher = true;
        while higher && height < MAX_HEIGHT
            invariant
                1 <= height <= MAX_HEIGHT,
                self.rng_state <= 0x7fff_ffff,
                *self == (SkipList { rng_state: self.rng_state, ..*old(self) }),
                higher ==> drawn(old(self).rng_state, 1) == drawn(self.rng_state, height as nat),
                !higher ==> drawn(old(self).rng_state, 1) == (height as nat, self.rng_state),
            decreases
                MAX_HEIGHT - height + if higher {
                    1int
                } else {
                    0int
                },
        {
            if self.random_next() % BRANCHING == 0 {
                height = height + 1;
            } else {
                higher = false;
            }
        }
        height
    }

    /// The place of the last node whose key is before `key`; the head if there is
    /// none.
    spec fn is_last_before(&self, place: int, key: Seq<u8>) -> bool {
        &&& 0 <= place < self.order@.len()
        &&& forall|i: int|
            0 < i <= place ==> self.comparator.less(#[trigger] self.key_at(i), key)
        &&& forall|i: int|
            place < i < self.order@.len() ==> !self.comparator.less(#[trigger] self.key_at(i), key)
    }

    /// Where a key stands or would stand.
    proof fn lemma_last_before(&self, key: Seq<u8>) -> (place: int)
        requires
            self.wf(),
            self.comparator.admits(key),
        ensures
            self.is_last_before(place, key),
    {
        self.lemma_last_before_from(key, self.order@.len() - 1)
    }

    proof fn lemma_last_before_from(&self, key: Seq<u8>, from: int) -> (place: int)
        requires
            self.wf(),
            self.comparator.admits(key),
            0 <= from < self.order@.len(),
            forall|i: int|
                from < i < self.order@.len() ==> !self.comparator.less(
                    #[trigger] self.key_at(i),
                    key,
                ),
        ensures
            self.is_last_before(place, key),
        decreases from,
    {
        if from == 0 {
            0
        } else if self.comparator.less(self.key_at(from), key) {
            assert forall|i: int| 0 < i <= from implies self.comparator.less(
                #[trigger] self.key_at(i),
                key,
            ) by {
                if i < from {
                    assert(self.comparator.less(self.key_at(i), self.key_at(from)));
                    self.comparator.less_transitive(self.key_at(i), self.key_at(from), key);
                }
            }
            from
        } else {
            self.lemma_last_before_from(key, from - 1)
        }
    }

    /// The link of a node at a level.
    fn next_at(&self, node: usize, level: usize, Ghost(place): Ghost<int>) -> (next: usize)
        requires
            self.wf(),
            0 <= place < self.order@.len(),
            self.order@[place] == node,
            level < self.heights()[node as int],
        ensures
            next == first_tall(self.heights(), self.order@.skip(place + 1), level as int),
            next < self.nodes@.len(),
    {
        proof {
            let _ = self.lemma_link(place, level as int);
        }
        let next: usize = self.nodes[node].next[level];
        assert(self.nodes@[self.order@[place]].next@[level as int] == next);
        next
    }

    /// Where the link of a node leads.
    proof fn lemma_link(&self, place: int, level: int) -> (target: int)
        requires
            self.wf(),
            0 <= place < self.order@.len(),
        ensures
            ({
                let rest = self.order@.skip(place + 1);
                let found = first_tall(self.heights(), rest, level);
                &&& place < target <= self.order@.len()
                &&& target == self.order@.len() ==> found == 0
                &&& target < self.order@.len() ==> found == self.order@[target] && found != 0
                    && self.heights()[found] > level
                &&& 0 <= found < self.nodes@.len()
                &&& forall|i: int|
                    place < i < target ==> self.heights()[#[trigger] self.order@[i]] <= level
            }),
    {
        let rest = self.order@.skip(place + 1);
        let index = lemma_first_tall_index(self.heights(), rest, level);
        let target = place + 1 + index;
        if target < self.order@.len() {
            assert(rest[index] == self.order@[target]);
            assert(self.order@[0] != self.order@[target]);
        }
        assert forall|i: int| place < i < target implies self.heights()[#[trigger] self.order@[i]]
            <= level by {
            assert(rest.take(index)[i - place - 1] == self.order@[i]);
        }
        target
    }

    /// The last node whose key is before `key`; the head if there is none.
    fn find_less_than(&self, key: &[u8]) -> (found: (usize, Ghost<int>))
        requires
            self.wf(),
            self.comparator.admits(key@),
        ensures
            self.is_last_before(found.1@, key@),
            self.order@[found.1@] == found.0,
    {
        let ghost goal = self.lemma_last_before(key@);
        let mut node: usize = 0;
        let mut level: usize = self.height - 1;
        let ghost mut place: int = 0;
        loop
            invariant
                self.wf(),
                self.comparator.admits(key@),
                self.is_last_before(goal, key@),
                0 <= place <= goal,
                self.order@[place] == node,
                level < self.height,
                level < self.heights()[node as int],
            decreases level, goal - place,
        {
            let next = self.next_at(node, level, Ghost(place));
            let ghost target = self.lemma_link(place, level as int);
            proof {
                if target < self.order@.len() {
                    assert(self.comparator.admits(self.key_at(target)));
                }
            }
            if next != 0 && comparator::precedes(
                &self.comparator,
                self.nodes[next].key.as_slice(),
                key,
            ) {
                node = next;
                proof {
                    assert(self.comparator.less(self.key_at(target), key@));
                    place = target;
                }
            } else {
                if level == 0 {
                    proof {
                        if place < goal {
                            if goal < target {
                                assert(self.heights()[self.order@[goal]] <= 0);
                            } else {
                                assert(self.comparator.less(self.key_at(target), key@));
                            }
                        }
                    }
                    return (node, Ghost(place));
                }
                level = level - 1;
            }
        }
    }

    /// For each level the last node before `key` that is taller; the head if
    /// there is none.
    fn find_previous(&self, key: &[u8], Ghost(goal): Ghost<int>) -> (previous: Vec<usize>)
        requires
            self.wf(),
            self.comparator.admits(key@),
            self.is_last_before(goal, key@),
        ensures
            previous@.len() == MAX_HEIGHT,
            forall|level: int|
                0 <= level < MAX_HEIGHT ==> self.precedes_at(
                    #[trigger] previous@[level],
                    level,
                    goal,
                ),
    {
        let mut previous: Vec<usize> = Vec::new();
        let mut filled: usize = 0;
        while filled < MAX_HEIGHT
            invariant
                self.wf(),
                filled <= MAX_HEIGHT,
                0 <= goal < self.order@.len(),
                previous@.len() == filled,
                forall|i: int| 0 <= i < filled ==> previous@[i] == 0,
            decreases MAX_HEIGHT - filled,
        {
            previous.push(0);
            filled = filled + 1;
        }
        proof {
            assert forall|level: int|
                self.height <= level < MAX_HEIGHT implies self.precedes_at(
                #[trigger] previous@[level],
                level,
                goal,
            ) by {
                self.lemma_head_precedes(level, goal);
            }
        }
        let mut node: usize = 0;
        let mut level: usize = self.height;
        let ghost mut place: int = 0;
        while level > 0
            invariant
                self.wf(),
                self.comparator.admits(key@),
                self.is_last_before(goal, key@),
                0 <= place <= goal,
                self.order@[place] == node,
                level <= self.height <= MAX_HEIGHT,
                level <= self.heights()[node as int],
                previous@.len() == MAX_HEIGHT,
                forall|l: int|
                    level <= l < MAX_HEIGHT ==> self.precedes_at(#[trigger] previous@[l], l, goal),
            decreases level, goal - place,
        {
            let next = self.next_at(node, level - 1, Ghost(place));
            let ghost target = self.lemma_link(place, level - 1);
            proof {
                if target < self.order@.len() {
                    assert(self.comparator.admits(self.key_at(target)));
                }
            }
            if next != 0 && comparator::precedes(
                &self.comparator,
                self.nodes[next].key.as_slice(),
                key,
            ) {
                node = next;
                proof {
                    assert(self.comparator.less(self.key_at(target), key@));
                    place = target;
                }
            } else {
                level = level - 1;
                let ghost before = previous@;
                previous.set(level, node);
                proof {
                    assert(self.precedes_by(place, level as int, goal)) by {
                        assert forall|i: int| place < i <= goal implies self.heights()[
                            #[trigger] self.order@[i]] <= level by {
                            if target <= i {
                                assert(self.comparator.less(self.key_at(target), key@));
                            }
                        }
                    }
                    assert(self.precedes_at(node, level as int, goal));
                    assert forall|l: int| level <= l < MAX_HEIGHT implies self.precedes_at(
                        #[trigger] previous@[l],
                        l,
                        goal,
                    ) by {
                        if l > level {
                            assert(previous@[l] == before[l]);
                        }
                    }
                }
            }
        }
        previous
    }

    /// The node at a place is the last one up to `goal` that is taller than
    /// `level`.
    spec fn precedes_by(&self, place: int, level: int, goal: int) -> bool {
        &&& 0 <= place <= goal
        &&& self.heights()[self.order@[place]] > level
        &&& forall|i: int|
            place < i <= goal ==> self.heights()[#[trigger] self.order@[i]] <= level
    }

    /// The node is the last one up to `goal` that is taller than `level`.
    spec fn precedes_at(&self, node: usize, level: int, goal: int) -> bool {
        exists|place: int|
            self.precedes_by(place, level, goal) && #[trigger] self.order@[place] == node
    }

    /// Above the list's height only the head is left.
    proof fn lemma_head_precedes(&self, level: int, goal: int)
        requires
            self.wf(),
            self.height <= level < MAX_HEIGHT,
            0 <= goal < self.order@.len(),
        ensures
            self.precedes_at(0, level, goal),
    {
        assert forall|i: int| 0 < i <= goal implies self.heights()[#[trigger] self.order@[i]]
            <= level by {
            assert(self.order@[0] != self.order@[i]);
            assert(self.nodes@[self.order@[i]].next@.len() <= self.height);
        }
        assert(self.precedes_by(0, level, goal));
        assert(self.order@[0] == 0);
    }

    /// What an insertion did to the nodes: a node with the key is new, and at each
    /// level below its height the last node before it links to it.
    spec fn was_inserted(
        &self,
        before: &Self,
        key: Seq<u8>,
        goal: int,
        height: int,
        previous: Seq<usize>,
    ) -> bool {
        let fresh = before.nodes@.len() as int;
        &&& self.comparator == before.comparator
        &&& self.nodes@.len() == fresh + 1
        &&& self.nodes@[fresh].key@ == key
        &&& self.nodes@[fresh].next@.len() == height
        &&& forall|level: int|
            0 <= level < height ==> #[trigger] self.nodes@[fresh].next@[level]
                == before.nodes@[previous[level] as int].next@[level]
        &&& forall|id: int|
            0 <= id < fresh ==> (#[trigger] self.nodes@[id]).key@ == before.nodes@[id].key@
                && self.nodes@[id].next@.len() == before.nodes@[id].next@.len()
        &&& forall|id: int, level: int|
            0 <= id < fresh && 0 <= level < before.nodes@[id].next@.len()
                ==> #[trigger] self.nodes@[id].next@[level] == if level < height
                && previous[level] == id {
                fresh as usize
            } else {
                before.nodes@[id].next@[level]
            }
        &&& self.order@ == before.order@.insert(goal + 1, fresh)
        &&& self.height == if height > before.height {
            height
        } else {
            before.height as int
        }
    }

    /// The links are right after an insertion.
    proof fn lemma_inserted_links(
        &self,
        before: &Self,
        key: Seq<u8>,
        goal: int,
        height: int,
        previous: Seq<usize>,
    )
        requires
            before.wf(),
            before.nodes@.len() < usize::MAX,
            0 <= goal < before.order@.len(),
            1 <= height <= MAX_HEIGHT,
            previous.len() == MAX_HEIGHT,
            forall|level: int|
                0 <= level < MAX_HEIGHT ==> before.precedes_at(
                    #[trigger] previous[level],
                    level,
                    goal,
                ),
            self.was_inserted(before, key, goal, height, previous),
        ensures
            self.linked(),
    {
        let fresh = before.nodes@.len() as int;
        let old_heights = before.heights();
        let new_heights = self.heights();
        let old_order = before.order@;
        let new_order = self.order@;
        let rest = old_order.skip(goal + 1);
        assert forall|i: int| 0 <= i < old_heights.len() implies #[trigger] old_heights[i]
            == new_heights[i] by {
            assert(self.nodes@[i].next@.len() == before.nodes@[i].next@.len());
        }
        assert(new_heights[fresh] == height);
        assert forall|place: int, level: int|
            #![trigger self.nodes@[new_order[place]].next@[level]]
            0 <= place < new_order.len() && 0 <= level
                < new_heights[new_order[place]] implies self.nodes@[new_order[place]].next@[level]
            == first_tall(new_heights, new_order.skip(place + 1), level) by {
            let tail = new_order.skip(place + 1);
            if place == goal + 1 {
                assert(new_order[place] == fresh);
                assert(tail =~= rest);
                assert(before.precedes_at(previous[level], level, goal));
                let pp = choose|pp: int|
                    before.precedes_by(pp, level, goal) && #[trigger] old_order[pp]
                        == previous[level];
                let middle = old_order.subrange(pp + 1, goal + 1);
                assert forall|i: int| 0 <= i < middle.len() implies old_heights[
                    #[trigger] middle[i]] <= level by {
                    assert(middle[i] == old_order[pp + 1 + i]);
                }
                assert(old_order.skip(pp + 1) =~= middle + rest);
                lemma_first_tall_skips(old_heights, middle, rest, level);
                assert(before.nodes@[old_order[pp]].next@[level] == first_tall(
                    old_heights,
                    old_order.skip(pp + 1),
                    level,
                ));
                assert forall|i: int| 0 <= i < rest.len() implies 0 <= #[trigger] rest[i]
                    < old_heights.len() by {
                    assert(rest[i] == old_order[goal + 1 + i]);
                }
                lemma_first_tall_same(old_heights, new_heights, rest, level);
                assert(self.nodes@[fresh].next@[level]
                    == before.nodes@[previous[level] as int].next@[level]);
            } else if place > goal + 1 {
                let id = old_order[place - 1];
                assert(new_order[place] == id);
                assert(tail =~= old_order.skip(place));
                assert forall|i: int| 0 <= i < tail.len() implies 0 <= #[trigger] tail[i]
                    < old_heights.len() by {
                    assert(tail[i] == old_order[place + i]);
                }
                lemma_first_tall_same(old_heights, new_heights, tail, level);
                if level < height {
                    assert(before.precedes_at(previous[level], level, goal));
                    let pp = choose|pp: int|
                        before.precedes_by(pp, level, goal) && #[trigger] old_order[pp]
                            == previous[level];
                    assert(old_order[pp] != old_order[place - 1]);
                }
                assert(self.nodes@[id].next@[level] == before.nodes@[id].next@[level]);
                assert(before.nodes@[old_order[place - 1]].next@[level] == first_tall(
                    old_heights,
                    old_order.skip(place),
                    level,
                ));
            } else {
                let id = old_order[place];
                assert(new_order[place] == id);
                self.lemma_inserted_before(before, key, goal, height, previous, place, level);
            }
        }
    }

    /// The links of the nodes before the new one are right.
    proof fn lemma_inserted_before(
        &self,
        before: &Self,
        key: Seq<u8>,
        goal: int,
        height: int,
        previous: Seq<usize>,
        place: int,
        level: int,
    )
        requires
            before.wf(),
            before.nodes@.len() < usize::MAX,
            0 <= place <= goal < before.order@.len(),
            1 <= height <= MAX_HEIGHT,
            previous.len() == MAX_HEIGHT,
            forall|l: int|
                0 <= l < MAX_HEIGHT ==> before.precedes_at(#[trigger] previous[l], l, goal),
            self.was_inserted(before, key, goal, height, previous),
            0 <= level < self.heights()[before.order@[place]],
        ensures
            self.nodes@[before.order@[place]].next@[level] == first_tall(
                self.heights(),
                self.order@.skip(place + 1),
                level,
            ),
    {
        let fresh = before.nodes@.len() as int;
        let old_heights = before.heights();
        let new_heights = self.heights();
        let old_order = before.order@;
        let id = old_order[place];
        let rest = old_order.skip(goal + 1);
        let middle = old_order.subrange(place + 1, goal + 1);
        let one = seq![fresh];
        assert(self.nodes@[id].next@.len() == before.nodes@[id].next@.len());
        assert forall|i: int| 0 <= i < old_heights.len() implies #[trigger] old_heights[i]
            == new_heights[i] by {
            assert(self.nodes@[i].next@.len() == before.nodes@[i].next@.len());
        }
        assert(self.order@.skip(place + 1) =~= middle + (one + rest));
        assert(old_order.skip(place + 1) =~= middle + rest);
        assert(before.nodes@[old_order[place]].next@[level] == first_tall(
            old_heights,
            old_order.skip(place + 1),
            level,
        ));
        assert forall|i: int| 0 <= i < (middle + rest).len() implies 0 <= #[trigger] (middle
            + rest)[i] < old_heights.len() by {
            assert((middle + rest)[i] == old_order[place + 1 + i]);
        }
        assert forall|i: int| 0 <= i < middle.len() implies 0 <= #[trigger] middle[i]
            < old_heights.len() by {
            assert(middle[i] == old_order[place + 1 + i]);
        }
        lemma_first_tall_same(old_heights, new_heights, middle + rest, level);
        lemma_first_tall_same(old_heights, new_heights, middle, level);
        if none_tall(new_heights, middle, level) {
            lemma_first_tall_skips(new_heights, middle, one + rest, level);
            lemma_first_tall_skips(new_heights, middle, rest, level);
            if level < height {
                assert((one + rest)[0] == fresh);
                assert(first_tall(new_heights, one + rest, level) == fresh);
                assert(before.precedes_at(previous[level], level, goal));
                let pp = choose|pp: int|
                    before.precedes_by(pp, level, goal) && #[trigger] old_order[pp]
                        == previous[level];
                if pp > place {
                    assert(middle[pp - place - 1] == old_order[pp]);
                    assert(old_heights[middle[pp - place - 1]] <= level);
                } else if pp < place {
                    assert(old_heights[old_order[place]] <= level);
                }
            } else {
                assert(none_tall(new_heights, one, level));
                lemma_first_tall_skips(new_heights, one, rest, level);
            }
        } else {
            lemma_first_tall_found(new_heights, middle, rest, one + rest, level);
            if level < height {
                assert(before.precedes_at(previous[level], level, goal));
                let pp = choose|pp: int|
                    before.precedes_by(pp, level, goal) && #[trigger] old_order[pp]
                        == previous[level];
                let i = choose|i: int|
                    0 <= i < middle.len() && old_heights[#[trigger] middle[i]] > level;
                assert(middle[i] == old_order[place + 1 + i]);
                if pp <= place {
                    assert(old_heights[old_order[place + 1 + i]] <= level);
                }
                assert(old_order[place] != old_order[pp]);
            }
        }
        assert(self.nodes@[id].next@[level] == if level < height && previous[level] == id {
            fresh as usize
        } else {
            before.nodes@[id].next@[level]
        });
    }

    /// Adds a key. None that is equal to it in the order may be there.
    pub fn insert(&mut self, key: Vec<u8>)
        requires
            old(self).wf(),
            old(self).key_order().admits(key@),
            old(self).lacks(key@),
            old(self).keys().len() + 2 < usize::MAX,
        ensures
            final(self).wf(),
            final(self).key_order() == old(self).key_order(),
            exists|place: int|
                0 <= place <= old(self).keys().len() && final(self).keys()
                    == #[trigger] old(self).keys().insert(place, key@),
    {
        let ghost start = *self;
        let ghost goal = self.lemma_last_before(key@);
        let previous = self.find_previous(key.as_slice(), Ghost(goal));
        let height = self.random_height();
        if height > self.height {
            self.height = height;
        }
        let fresh: usize = self.nodes.len();
        let ghost base = self.nodes@;
        let mut next: Vec<usize> = Vec::new();
        let mut level: usize = 0;
        while level < height
            invariant
                level <= height <= MAX_HEIGHT,
                self.nodes@ == base,
                base == start.nodes@,
                start.wf(),
                0 <= goal < start.order@.len(),
                previous@.len() == MAX_HEIGHT,
                forall|l: int|
                    0 <= l < MAX_HEIGHT ==> start.precedes_at(#[trigger] previous@[l], l, goal),
                next@.len() == level,
                forall|l: int|
                    0 <= l < level ==> #[trigger] next@[l] == base[previous@[l] as int].next@[l],
            decreases height - level,
        {
            proof {
                start.lemma_previous_tall(previous@[level as int], level as int, goal);
            }
            let before: usize = previous[level];
            let link: usize = self.nodes[before].next[level];
            next.push(link);
            level = level + 1;
        }
        level = 0;
        while level < height
            invariant
                level <= height <= MAX_HEIGHT,
                base == start.nodes@,
                start.wf(),
                0 <= goal < start.order@.len(),
                fresh == base.len(),
                previous@.len() == MAX_HEIGHT,
                forall|l: int|
                    0 <= l < MAX_HEIGHT ==> start.precedes_at(#[trigger] previous@[l], l, goal),
                self.nodes@.len() == base.len(),
                self.comparator == start.comparator,
                self.order == start.order,
                self.rng_state <= 0x7fff_ffff,
                self.height == if height > start.height {
                    height
                } else {
                    start.height
                },
                forall|id: int|
                    0 <= id < base.len() ==> (#[trigger] self.nodes@[id]).key@ == base[id].key@
                        && self.nodes@[id].next@.len() == base[id].next@.len(),
                forall|id: int, l: int|
                    0 <= id < base.len() && 0 <= l < base[id].next@.len()
                        ==> #[trigger] self.nodes@[id].next@[l] == if l < level && previous@[l]
                        == id {
                        fresh
                    } else {
                        base[id].next@[l]
                    },
            decreases height - level,
        {
            proof {
                start.lemma_previous_tall(previous@[level as int], level as int, goal);
            }
            let before: usize = previous[level];
            let ghost earlier = self.nodes@;
            self.nodes[before].next.set(level, fresh);
            proof {
                assert forall|id: int, l: int|
                    0 <= id < base.len() && 0 <= l
                        < base[id].next@.len() implies #[trigger] self.nodes@[id].next@[l]
                    == if l < level + 1 && previous@[l] == id {
                    fresh
                } else {
                    base[id].next@[l]
                } by {
                    if id == before {
                        if l != level {
                            assert(self.nodes@[id].next@[l] == earlier[id].next@[l]);
                        }
                    } else {
                        assert(self.nodes@[id] == earlier[id]);
                    }
                }
            }
            level = level + 1;
        }
        let ghost linked = self.nodes@;
        self.nodes.push(Node { key, next });
        proof {
            self.order@ = start.order@.insert(goal + 1, fresh as int);
            assert forall|id: int| 0 <= id < fresh implies #[trigger] self.nodes@[id]
                == linked[id] by {}
            assert(self.was_inserted(&start, key@, goal, height as int, previous@));
            self.lemma_inserted_links(&start, key@, goal, height as int, previous@);
            self.lemma_inserted_order(&start, key@, goal, height as int, previous@);
        }
    }

    /// A node before a key is tall enough to link at its level.
    proof fn lemma_previous_tall(&self, node: usize, level: int, goal: int)
        requires
            self.wf(),
            0 <= goal < self.order@.len(),
            self.precedes_at(node, level, goal),
        ensures
            node < self.nodes@.len(),
            level < self.nodes@[node as int].next@.len(),
    {
        let place = choose|place: int|
            self.precedes_by(place, level, goal) && #[trigger] self.order@[place] == node;
        assert(0 <= self.order@[place] < self.nodes@.len());
    }

    /// The order is right after an insertion, and the key is among the keys.
    proof fn lemma_inserted_order(
        &self,
        before: &Self,
        key: Seq<u8>,
        goal: int,
        height: int,
        previous: Seq<usize>,
    )
        requires
            before.wf(),
            before.is_last_before(goal, key),
            before.comparator.admits(key),
            before.lacks(key),
            1 <= height <= MAX_HEIGHT,
            self.was_inserted(before, key, goal, height, previous),
        ensures
            self.placed(),
            self.ranged(),
            self.rising(),
            self.keys() == before.keys().insert(goal, key),
    {
        let fresh = before.nodes@.len() as int;
        assert forall|i: int| 0 <= i < self.order@.len() implies 0 <= #[trigger] self.order@[i]
            < self.nodes@.len() && self.order@[i] == (if i <= goal {
            before.order@[i]
        } else if i == goal + 1 {
            fresh
        } else {
            before.order@[i - 1]
        }) by {
            if i > goal + 1 {
                assert(0 <= before.order@[i - 1] < fresh);
            }
        }
        assert forall|i: int, j: int|
            0 <= i < j < self.order@.len() implies #[trigger] self.order@[i]
            != #[trigger] self.order@[j] by {
            let a = if i <= goal {
                i
            } else {
                i - 1
            };
            let b = if j <= goal {
                j
            } else {
                j - 1
            };
            if i != goal + 1 && j != goal + 1 {
                assert(before.order@[a] != before.order@[b]);
            } else if i == goal + 1 {
                assert(before.order@[b] < fresh);
            } else {
                assert(before.order@[a] < fresh);
            }
        }
        assert forall|i: int| 0 < i < self.nodes@.len() implies 1 <= (
        #[trigger] self.nodes@[i]).next@.len() <= self.height by {
            if i < fresh {
                assert(before.nodes@[i].next@.len() <= before.height);
            }
        }
        assert forall|i: int| 0 < i < self.order@.len() implies #[trigger] self.key_at(i) == if i
            <= goal {
            before.key_at(i)
        } else if i == goal + 1 {
            key
        } else {
            before.key_at(i - 1)
        } by {
            let id = self.order@[i];
            if i != goal + 1 {
                assert(self.nodes@[id].key@ == before.nodes@[id].key@);
            }
        }
        assert forall|i: int| 0 < i < self.order@.len() implies self.comparator.admits(
            #[trigger] self.key_at(i),
        ) by {
            if i <= goal {
                assert(before.comparator.admits(before.key_at(i)));
            } else if i > goal + 1 {
                assert(before.comparator.admits(before.key_at(i - 1)));
            }
        }
        assert forall|i: int, j: int| 0 < i < j < self.order@.len() implies self.comparator.less(
            #[trigger] self.key_at(i),
            #[trigger] self.key_at(j),
        ) by {
            if j <= goal {
                assert(before.comparator.less(before.key_at(i), before.key_at(j)));
            } else if j == goal + 1 {
                assert(before.comparator.less(before.key_at(i), key));
            } else if i <= goal {
                assert(before.comparator.less(before.key_at(i), before.key_at(j - 1)));
            } else if i == goal + 1 {
                assert(before.keys()[j - 2] == before.key_at(j - 1));
                assert(!before.comparator.less(before.key_at(j - 1), key));
            } else {
                assert(before.comparator.less(before.key_at(i - 1), before.key_at(j - 1)));
            }
        }
        assert(self.keys() =~= before.keys().insert(goal, key));
    }

    /// Adds a key of `len` bytes that `fill` makes.
    pub fn insert_with<F>(&mut self, len: usize, fill: F) where F: FnOnce(usize) -> Vec<u8>
        requires
            old(self).wf(),
            fill.requires((len,)),
            forall|key: Vec<u8>| #[trigger]
                fill.ensures((len,), key) ==> old(self).key_order().admits(key@) && old(
                    self).lacks(key@),
            old(self).keys().len() + 2 < usize::MAX,
        ensures
            final(self).wf(),
            final(self).key_order() == old(self).key_order(),
            exists|key: Vec<u8>, place: int|
                #![trigger fill.ensures((len,), key), old(self).keys().insert(place, key@)]
                fill.ensures((len,), key) && 0 <= place <= old(self).keys().len() && final(
                    self).keys() == old(self).keys().insert(place, key@),
    {
        let key = fill(len);
        self.insert(key);
    }

    /// Whether a key that is equal to `key` in the order is there.
    /// How many keys there are.
    pub fn len(&self) -> (count: usize)
        requires
            self.wf(),
        ensures
            count == self.keys().len(),
    {
        self.nodes.len() - 1
    }

    pub fn contains(&self, key: &[u8]) -> (answer: bool)
        requires
            self.wf(),
            self.key_order().admits(key@),
        ensures
            answer == !self.lacks(key@),
    {
        let (before, Ghost(place)) = self.find_less_than(key);
        proof {
            self.lemma_height_one(place);
        }
        let next = self.next_at(before, 0, Ghost(place));
        let ghost target = self.lemma_link(place, 0);
        proof {
            self.lemma_next_place(place, target);
            self.lemma_lacks(place, key@);
        }
        if next == 0 {
            return false;
        }
        assert(self.comparator.admits(self.key_at(place + 1)));
        comparator::equivalent(&self.comparator, self.nodes[next].key.as_slice(), key)
    }

    /// Every node is linked at the lowest level.
    proof fn lemma_height_one(&self, place: int)
        requires
            self.wf(),
            0 <= place < self.order@.len(),
        ensures
            self.heights()[self.order@[place]] > 0,
    {
        let id = self.order@[place];
        if id != 0 {
            assert(1 <= self.nodes@[id].next@.len());
        }
    }

    /// At the lowest level a node links to the next in order.
    proof fn lemma_next_place(&self, place: int, target: int)
        requires
            self.wf(),
            0 <= place < target <= self.order@.len(),
            forall|i: int| place < i < target ==> self.heights()[#[trigger] self.order@[i]] <= 0,
        ensures
            target == place + 1,
    {
        if target > place + 1 {
            self.lemma_height_one(place + 1);
            assert(self.heights()[self.order@[place + 1]] <= 0);
        }
    }

    /// Only the key behind the last one before `key` can be equal to it.
    proof fn lemma_lacks(&self, place: int, key: Seq<u8>)
        requires
            self.wf(),
            self.comparator.admits(key),
            self.is_last_before(place, key),
        ensures
            self.lacks(key) == (place + 1 >= self.order@.len() || self.comparator.less(
                key,
                self.key_at(place + 1),
            )),
    {
        if place + 1 < self.order@.len() {
            assert(self.keys()[place] == self.key_at(place + 1));
            assert(!self.comparator.less(self.key_at(place + 1), key));
        }
        if place + 1 >= self.order@.len() || self.comparator.less(key, self.key_at(place + 1)) {
            assert forall|i: int| 0 <= i < self.keys().len() implies self.comparator.less(
                #[trigger] self.keys()[i],
                key,
            ) || self.comparator.less(key, self.keys()[i]) by {
                assert(self.keys()[i] == self.key_at(i + 1));
                if i + 1 <= place {
                    assert(self.comparator.less(self.key_at(i + 1), key));
                } else if i + 1 > place + 1 {
                    assert(self.comparator.less(self.key_at(place + 1), self.key_at(i + 1)));
                    assert(self.comparator.admits(self.key_at(place + 1)));
                    assert(self.comparator.admits(self.key_at(i + 1)));
                    self.comparator.less_transitive(
                        key,
                        self.key_at(place + 1),
                        self.key_at(i + 1),
                    );
                }
            }
        }
    }

    /// The last node in order; the head if there is no other.
    fn find_last(&self) -> (node: usize)
        requires
            self.wf(),
        ensures
            self.order@[self.order@.len() - 1] == node,
    {
        let mut node: usize = 0;
        let mut level: usize = self.height - 1;
        let ghost mut place: int = 0;
        loop
            invariant
                self.wf(),
                0 <= place < self.order@.len(),
                self.order@[place] == node,
                level < self.height,
                level < self.heights()[node as int],
            decreases level, self.order@.len() - place,
        {
            let next = self.next_at(node, level, Ghost(place));
            let ghost target = self.lemma_link(place, level as int);
            if next == 0 {
                if level == 0 {
                    proof {
                        self.lemma_next_place(place, target);
                    }
                    return node;
                }
                level = level - 1;
            } else {
                node = next;
                proof {
                    place = target;
                }
            }
        }
    }

    pub fn iter(&self) -> (iter: SkipListIter<'_, C>)
        requires
            self.wf(),
        ensures
            iter.wf(),
            *iter.source() == *self,
            iter.position() is None,
    {
        SkipListIter { list: self, node: 0, place: Ghost(0) }
    }
}

/// Walks over the keys of a list.
pub struct SkipListIter<'a, C: Comparator> {
    list: &'a SkipList<C>,
    node: usize,
    place: Ghost<int>,
}

impl<'a, C: Comparator> SkipListIter<'a, C> {
    /// The list.
    pub closed spec fn source(&self) -> &'a SkipList<C> {
        self.list
    }

    /// The index of the key that the iterator stands on.
    pub closed spec fn position(&self) -> Option<int> {
        if self.node == 0 {
            None
        } else {
            Some(self.place@ - 1)
        }
    }

    /// The node stands where the iterator says.
    pub closed spec fn wf(&self) -> bool {
        &&& self.list.wf()
        &&& 0 <= self.place@ < self.list.order@.len()
        &&& self.list.order@[self.place@] == self.node
    }

    /// The position is that of a key.
    pub proof fn lemma_position(&self)
        requires
            self.wf(),
        ensures
            self.source().wf(),
            self.position() matches Some(index) ==> 0 <= index < self.source().keys().len(),
    {
        if self.node != 0 {
            assert(self.list.order@[0] == 0);
        }
    }

    pub fn valid(&self) -> (answer: bool)
        requires
            self.wf(),
        ensures
            answer == (self.position() is Some),
    {
        self.node != 0
    }

    pub fn key(&self) -> (key: &'a [u8])
        requires
            self.wf(),
            self.position() is Some,
        ensures
            key@ == self.source().keys()[self.position()->0],
    {
        proof {
            assert(self.list.order@[0] == 0);
        }
        let list: &'a SkipList<C> = self.list;
        list.nodes[self.node].key.as_slice()
    }

    /// Stands on the node behind the one at a place.
    fn step_from(&mut self, node: usize, Ghost(place): Ghost<int>)
        requires
            old(self).wf(),
            0 <= place < old(self).list.order@.len(),
            old(self).list.order@[place] == node,
        ensures
            final(self).wf(),
            final(self).source() == old(self).source(),
            final(self).position() == if place < final(self).source().keys().len() {
                Some(place)
            } else {
                None::<int>
            },
    {
        proof {
            self.list.lemma_height_one(place);
        }
        let next = self.list.next_at(node, 0, Ghost(place));
        proof {
            let target = self.list.lemma_link(place, 0);
            self.list.lemma_next_place(place, target);
            self.place@ = if target < self.list.order@.len() {
                target
            } else {
                0
            };
        }
        self.node = next;
    }

    /// Stands on a node.
    fn stand_on(&mut self, node: usize, Ghost(place): Ghost<int>)
        requires
            old(self).wf(),
            0 <= place < old(self).list.order@.len(),
            old(self).list.order@[place] == node,
        ensures
            final(self).wf(),
            final(self).source() == old(self).source(),
            final(self).position() == if place > 0 {
                Some(place - 1)
            } else {
                None::<int>
            },
    {
        proof {
            self.place@ = place;
            if place > 0 {
                assert(self.list.order@[0] != self.list.order@[place]);
            }
        }
        self.node = node;
    }

    pub fn seek_to_first(&mut self)
        requires
            old(self).wf(),
        ensures
            final(self).wf(),
            final(self).source() == old(self).source(),
            final(self).position() == if final(self).source().keys().len() > 0 {
                Some(0int)
            } else {
                None::<int>
            },
    {
        self.step_from(0, Ghost(0));
    }

    pub fn seek_to_last(&mut self)
        requires
            old(self).wf(),
        ensures
            final(self).wf(),
            final(self).source() == old(self).source(),
            final(self).position() == if final(self).source().keys().len() > 0 {
                Some(final(self).source().keys().len() - 1)
            } else {
                None::<int>
            },
    {
        let last = self.list.find_last();
        self.stand_on(last, Ghost(self.list.order@.len() - 1));
    }

    /// Stands on the first key that is not before `target`.
    pub fn seek(&mut self, target: &[u8])
        requires
            old(self).wf(),
            old(self).source().key_order().admits(target@),
        ensures
            final(self).wf(),
            final(self).source() == old(self).source(),
            ({
                let keys = final(self).source().keys();
                let order = final(self).source().key_order();
                let index = match final(self).position() {
                    Some(index) => index,
                    None => keys.len() as int,
                };
                &&& 0 <= index <= keys.len()
                &&& final(self).position() is Some ==> index < keys.len()
                &&& forall|i: int| 0 <= i < index ==> order.less(#[trigger] keys[i], target@)
                &&& forall|i: int| index <= i < keys.len() ==> !order.less(#[trigger] keys[i], target@)
            }),
    {
        let (before, Ghost(place)) = self.list.find_less_than(target);
        self.step_from(before, Ghost(place));
        proof {
            let keys = self.list.keys();
            assert forall|i: int| 0 <= i < place implies self.list.comparator.less(
                #[trigger] keys[i],
                target@,
            ) by {
                assert(keys[i] == self.list.key_at(i + 1));
            }
            assert forall|i: int| place <= i < keys.len() implies !self.list.comparator.less(
                #[trigger] keys[i],
                target@,
            ) by {
                assert(keys[i] == self.list.key_at(i + 1));
            }
        }
    }

    pub fn next(&mut self)
        requires
            old(self).wf(),
            old(self).position() is Some,
        ensures
            final(self).wf(),
            final(self).source() == old(self).source(),
            final(self).position() == if old(self).position()->0 + 1 < final(
                self).source().keys().len() {
                Some(old(self).position()->0 + 1)
            } else {
                None::<int>
            },
    {
        let node: usize = self.node;
        self.step_from(node, Ghost(self.place@));
    }

    pub fn prev(&mut self)
        requires
            old(self).wf(),
            old(self).position() is Some,
        ensures
            final(self).wf(),
            final(self).source() == old(self).source(),
            final(self).position() == if old(self).position()->0 > 0 {
                Some(old(self).position()->0 - 1)
            } else {
                None::<int>
            },
    {
        let ghost here = self.place@;
        proof {
            assert(self.list.order@[0] == 0);
            assert(self.list.comparator.admits(self.list.key_at(here)));
        }
        let key: &[u8] = self.list.nodes[self.node].key.as_slice();
        let (before, Ghost(place)) = self.list.find_less_than(key);
        proof {
            let list = self.list;
            list.comparator.less_irreflexive(list.key_at(here));
            if place >= here {
                assert(list.comparator.less(list.key_at(here), key@));
            }
            if place < here - 1 {
                assert(list.comparator.less(list.key_at(here - 1), list.key_at(here)));
            }
        }
        self.stand_on(before, Ghost(place));
    }
}

/// The generator multiplies its state by 16807, modulo the greatest 31-bit number.
pub proof fn law_generator(state: u32)
    requires
        state <= 0x7fff_ffff,
    ensures
        next_state(state) as int % 0x7fff_ffff == (state as int * 16807) % 0x7fff_ffff,
        next_state(state) <= 0x7fff_ffff,
{
    let product = state as int * 16807;
    let (high, low) = (product / 0x8000_0000, product % 0x8000_0000);
    let folded = high + low;
    assert(product == high * 0x7fff_ffff + folded);
    vstd::arithmetic::div_mod::lemma_mod_multiples_vanish(high, folded, 0x7fff_ffff);
    assert(0x7fff_ffff * high + folded == product);
    if folded > 0x7fff_ffff {
        vstd::arithmetic::div_mod::lemma_mod_multiples_vanish(
            1,
            folded - 0x7fff_ffff,
            0x7fff_ffff,
        );
    }
}

/// A node goes one level higher just if there is one, and the next number drawn is a multiple
/// of four. No node is lower than one level or higher than twelve.
pub proof fn law_heights_are_drawn(state: u32, height: nat)
    requires
        1 <= height <= 12,
    ensures
        height <= drawn(state, height).0 <= 12,
        drawn(state, height).0 > height <==> height < 12 && next_state(state) % 4 == 0,
        height < 12 && next_state(state) % 4 == 0 ==> drawn(state, height) == drawn(
            next_state(state),
            height + 1,
        ),
    decreases 12 - height,
{
    if height < 12 && next_state(state) % 4 == 0 {
        law_heights_are_drawn(next_state(state), height + 1);
    }
}

} // verus!
