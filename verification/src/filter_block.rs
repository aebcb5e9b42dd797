//! The filters of a table, one for each stretch of its data blocks.
//!
//! `filter data | offset of each filter | offset of the offsets | base`: the
//! filter of a data block is found from the block's offset, shifted by the base.

use vstd::prelude::*;

use crate::block::block_restart_trailer;
use crate::coding;
use crate::filter;
use crate::filter::FilterPolicy;

verus! {

pub const FILTER_BASE_LG: usize = 11;

pub const FILTER_BASE: u64 = 2048;

/// The filter of a group of keys. A group without keys has none.
pub open spec fn group_filter<P: FilterPolicy>(policy: P, keys: Seq<Seq<u8>>) -> Seq<u8> {
    if keys.len() == 0 {
        Seq::empty()
    } else {
        policy.filter(keys)
    }
}

/// The filters of some groups, one behind the other.
pub open spec fn filter_data<P: FilterPolicy>(policy: P, groups: Seq<Seq<Seq<u8>>>) -> Seq<u8>
    decreases groups.len(),
{
    if groups.len() == 0 {
        Seq::empty()
    } else {
        filter_data(policy, groups.drop_last()) + group_filter(policy, groups.last())
    }
}

/// The filter of each group denies none of its keys.
pub open spec fn all_honest<P: FilterPolicy>(policy: P, groups: Seq<Seq<Seq<u8>>>) -> bool {
    forall|i: int|
        0 <= i < groups.len() && groups[i].len() > 0 ==> filter::honest(
            &policy,
            #[trigger] groups[i],
        )
}

/// Where the filter of each group starts. Offsets are held in 32 bits.
pub open spec fn filter_starts<P: FilterPolicy>(policy: P, groups: Seq<Seq<Seq<u8>>>) -> Seq<u32> {
    Seq::new(
        groups.len(),
        |i: int|
            (filter_data(policy, groups.take(i)).len() % coding::two_pow_32()) as u32,
    )
}

/// A whole filter block in bytes.
pub open spec fn filter_image<P: FilterPolicy>(policy: P, groups: Seq<Seq<Seq<u8>>>) -> Seq<u8> {
    let data = filter_data(policy, groups);
    data + block_restart_trailer::words(filter_starts(policy, groups)) + coding::le_bytes(
        data.len() % coding::two_pow_32(),
        4,
    ) + seq![FILTER_BASE_LG as u8]
}

/// The groups once a data block starts whose filter has the given index: the
/// keys so far close a group, and groups without keys fill the gap.
pub open spec fn groups_up_to(
    groups: Seq<Seq<Seq<u8>>>,
    pending: Seq<Seq<u8>>,
    index: int,
) -> Seq<Seq<Seq<u8>>> {
    if index <= groups.len() {
        groups
    } else {
        groups.push(pending) + Seq::new(
            (index - groups.len() - 1) as nat,
            |i: int| Seq::<Seq<u8>>::empty(),
        )
    }
}

/// The groups of a finished filter block.
pub open spec fn final_groups(groups: Seq<Seq<Seq<u8>>>, pending: Seq<Seq<u8>>) -> Seq<
    Seq<Seq<u8>>,
> {
    if pending.len() == 0 {
        groups
    } else {
        groups.push(pending)
    }
}

/// The groups that are closed and the keys that wait, once the given data blocks were
/// announced, each at its offset and with its keys.
pub open spec fn built(blocks: Seq<(u64, Seq<Seq<u8>>)>) -> (Seq<Seq<Seq<u8>>>, Seq<Seq<u8>>)
    decreases blocks.len(),
{
    if blocks.len() == 0 {
        (Seq::empty(), Seq::empty())
    } else {
        let (groups, pending) = built(blocks.drop_last());
        let (offset, keys) = blocks.last();
        let index = offset as int / 2048;
        (
            groups_up_to(groups, pending, index),
            if index <= groups.len() {
                pending + keys
            } else {
                keys
            },
        )
    }
}

/// The groups of the finished filter block of some data blocks.
pub open spec fn built_groups(blocks: Seq<(u64, Seq<Seq<u8>>)>) -> Seq<Seq<Seq<u8>>> {
    final_groups(built(blocks).0, built(blocks).1)
}

/// Whether the bytes can be read as a filter block.
pub open spec fn is_filter_block(image: Seq<u8>) -> bool {
    image.len() >= 5 && array_offset(image) <= image.len() - 5
}

/// Where the offsets start.
pub open spec fn array_offset(image: Seq<u8>) -> nat {
    coding::le_value(image.subrange(image.len() - 5, image.len() - 1))
}

/// How many filters there are.
pub open spec fn filter_count(image: Seq<u8>) -> int {
    (image.len() - 5 - array_offset(image)) / 4
}

/// The number of offset bits that choose no filter.
pub open spec fn base_of(image: Seq<u8>) -> nat {
    image.last() as nat
}

/// The offset at an index, with the end of the filters behind the last.
pub open spec fn filter_offset(image: Seq<u8>, index: int) -> nat {
    if index < filter_count(image) {
        let at = array_offset(image) + 4 * index;
        coding::le_value(image.subrange(at, at + 4))
    } else {
        array_offset(image)
    }
}

/// The index of the filter of a data block.
pub open spec fn filter_index(image: Seq<u8>, block_offset: u64) -> int {
    if base_of(image) >= 64 {
        0
    } else {
        (block_offset >> (base_of(image) as u64)) as int
    }
}

/// What a filter block says of a key in a data block. Where there is no filter,
/// or its offsets make no sense, it denies nothing. An empty filter is handed to the
/// policy like any other.
pub open spec fn block_admits<P: FilterPolicy>(
    policy: P,
    image: Seq<u8>,
    block_offset: u64,
    key: Seq<u8>,
) -> bool {
    let index = filter_index(image, block_offset);
    let start = filter_offset(image, index);
    let limit = filter_offset(image, index + 1);
    if index >= filter_count(image) || !(start <= limit <= array_offset(image)) {
        true
    } else {
        policy.admits(key, image.subrange(start as int, limit as int))
    }
}

// ---------------------------------------------------------------------------
// Builder
// ---------------------------------------------------------------------------

/// Collects the keys of data blocks and makes their filters: `start_block`, then
/// `add_key` for each key, for each data block in turn; `finish` at the end.
pub struct FilterBlockBuilder<P: FilterPolicy> {
    policy: P,
    keys: Vec<u8>,
    start: Vec<usize>,
    result: Vec<u8>,
    filter_offsets: Vec<u32>,
    closed: Ghost<Seq<Seq<Seq<u8>>>>,
    blocks: Ghost<Seq<(u64, Seq<Seq<u8>>)>>,
}

impl<P: FilterPolicy> FilterBlockBuilder<P> {
    /// The policy of the filters.
    pub closed spec fn filter_policy(&self) -> P {
        self.policy
    }

    /// The groups of keys whose filters are made.
    pub closed spec fn groups(&self) -> Seq<Seq<Seq<u8>>> {
        self.closed@
    }

    /// The data blocks that were announced, each with its keys. Keys that come ahead of the
    /// first belong to a block at the front.
    pub closed spec fn blocks(&self) -> Seq<(u64, Seq<Seq<u8>>)> {
        self.blocks@
    }

    /// The keys that wait for their filter.
    pub closed spec fn pending(&self) -> Seq<Seq<u8>> {
        pieces(self.keys@, self.start@)
    }

    /// The bytes so far.
    pub closed spec fn wf(&self) -> bool {
        &&& self.made()
        &&& self.blocks@.len() > 0
        &&& built(self.blocks@) == (self.closed@, self.pending())
    }

    /// The filters of the closed groups are made.
    spec fn made(&self) -> bool {
        &&& rises(self.start@, self.keys@.len())
        &&& self.result@ == filter_data(self.policy, self.closed@)
        &&& self.filter_offsets@ == filter_starts(self.policy, self.closed@)
        &&& all_honest(self.policy, self.closed@)
    }

    /// What is held is what the data blocks that were announced make of it.
    pub proof fn lemma_built(&self)
        requires
            self.wf(),
        ensures
            built(self.blocks()) == (self.groups(), self.pending()),
            self.blocks().len() > 0,
    {
    }

    pub fn new(policy: P) -> (builder: Self)
        ensures
            builder.wf(),
            builder.filter_policy() == policy,
            builder.groups() == Seq::<Seq<Seq<u8>>>::empty(),
            builder.pending() == Seq::<Seq<u8>>::empty(),
            builder.blocks() == seq![(0u64, Seq::<Seq<u8>>::empty())],
    {
        let ghost front = seq![(0u64, Seq::<Seq<u8>>::empty())];
        let builder = FilterBlockBuilder {
            policy,
            keys: Vec::new(),
            start: Vec::new(),
            result: Vec::new(),
            filter_offsets: Vec::new(),
            closed: Ghost(Seq::empty()),
            blocks: Ghost(front),
        };
        proof {
            let blocks = builder.blocks@;
            assert(blocks.drop_last() =~= Seq::empty());
            assert(built(blocks.drop_last()) == (Seq::<Seq<Seq<u8>>>::empty(), Seq::<Seq<u8>>::empty()));
            assert(built(blocks).1 =~= Seq::<Seq<u8>>::empty());
        }
        assert(builder.pending() =~= Seq::<Seq<u8>>::empty());
        assert(builder.filter_offsets@ =~= filter_starts(builder.policy, builder.closed@));
        builder
    }

    /// Says that the next keys are those of a data block at `block_offset`.
    pub fn start_block(&mut self, block_offset: u64)
        requires
            old(self).wf(),
        ensures
            final(self).wf(),
            final(self).filter_policy() == old(self).filter_policy(),
            final(self).groups() == groups_up_to(
                old(self).groups(),
                old(self).pending(),
                block_offset as int / 2048,
            ),
            final(self).pending() == if block_offset as int / 2048 <= old(self).groups().len() {
                old(self).pending()
            } else {
                Seq::<Seq<u8>>::empty()
            },
            final(self).blocks() == old(self).blocks().push(
                (block_offset, Seq::<Seq<u8>>::empty()),
            ),
    {
        let filter_index: u64 = block_offset / FILTER_BASE;
        let ghost before = self.groups();
        let ghost waiting = self.pending();
        while filter_index > self.filter_offsets.len() as u64
            invariant
                self.made(),
                self.policy == old(self).policy,
                self.blocks == old(self).blocks,
                self.groups().len() >= before.len(),
                self.groups().len() == before.len() ==> self.groups() == before && self.pending()
                    == waiting,
                self.groups().len() > before.len() ==> self.groups().len() <= filter_index
                    && self.groups() == groups_up_to(
                    before,
                    waiting,
                    self.groups().len() as int,
                ) && self.pending() == Seq::<Seq<u8>>::empty(),
            decreases filter_index - self.groups().len(),
        {
            let ghost earlier = self.groups();
            self.generate_filter();
            proof {
                assert(self.groups() =~= groups_up_to(
                    before,
                    waiting,
                    self.groups().len() as int,
                ));
            }
        }
        proof {
            let more = self.blocks@.push((block_offset, Seq::<Seq<u8>>::empty()));
            assert(more.drop_last() =~= self.blocks@);
            assert(waiting + Seq::<Seq<u8>>::empty() =~= waiting);
            self.blocks@ = more;
        }
    }

    pub fn add_key(&mut self, key: &[u8])
        requires
            old(self).wf(),
        ensures
            final(self).wf(),
            final(self).filter_policy() == old(self).filter_policy(),
            final(self).groups() == old(self).groups(),
            final(self).pending() == old(self).pending().push(key@),
            final(self).blocks() == old(self).blocks().drop_last().push(
                (old(self).blocks().last().0, old(self).blocks().last().1.push(key@)),
            ),
    {
        self.start.push(self.keys.len());
        self.keys.extend_from_slice(key);
        proof {
            lemma_piece_added(old(self).keys@, old(self).start@, key@);
            assert(self.keys@ =~= old(self).keys@ + key@);
            let blocks = self.blocks@;
            let more = blocks.drop_last().push((blocks.last().0, blocks.last().1.push(key@)));
            assert(more.drop_last() =~= blocks.drop_last());
            assert(built(more).1 =~= built(blocks).1.push(key@));
            self.blocks@ = more;
        }
    }

    /// Ends the filter block.
    pub fn finish(&mut self) -> (image: &[u8])
        requires
            old(self).wf(),
        ensures
            image@ == filter_image(
                old(self).filter_policy(),
                final_groups(old(self).groups(), old(self).pending()),
            ),
            image@ == filter_image(old(self).filter_policy(), built_groups(old(self).blocks())),
            all_honest(
                old(self).filter_policy(),
                final_groups(old(self).groups(), old(self).pending()),
            ),
    {
        if self.start.len() != 0 {
            self.generate_filter();
        }
        let ghost policy = self.policy;
        let ghost groups = self.groups();
        let ghost data = self.result@;
        let ghost starts = filter_starts(policy, groups);
        let array_offset = coding::low_32_bits(self.result.len());
        let mut index: usize = 0;
        assert(self.result@ =~= data + block_restart_trailer::words(starts.take(0)));
        while index < self.filter_offsets.len()
            invariant
                index <= starts.len(),
                self.filter_offsets@ == starts,
                self.result@ == data + block_restart_trailer::words(starts.take(index as int)),
            decreases starts.len() - index,
        {
            coding::put_fixed32(&mut self.result, self.filter_offsets[index]);
            index = index + 1;
            proof {
                let head = starts.take(index as int);
                assert(head.drop_last() =~= starts.take(index - 1));
                assert(self.result@ =~= data + block_restart_trailer::words(head));
            }
        }
        assert(starts.take(index as int) =~= starts);
        coding::put_fixed32(&mut self.result, array_offset);
        self.result.push(FILTER_BASE_LG as u8);
        assert(self.result@ =~= filter_image(policy, groups));
        self.result.as_slice()
    }

    /// Closes the group of the keys so far.
    fn generate_filter(&mut self)
        requires
            old(self).made(),
        ensures
            final(self).made(),
            final(self).policy == old(self).policy,
            final(self).blocks == old(self).blocks,
            final(self).groups() == old(self).groups().push(old(self).pending()),
            final(self).pending() == Seq::<Seq<u8>>::empty(),
    {
        let ghost before = self.groups();
        let ghost waiting = self.pending();
        let ghost after = before.push(waiting);
        let num_keys: usize = self.start.len();
        proof {
            assert(after.drop_last() =~= before);
            lemma_starts_push(self.policy, before, waiting);
        }
        self.filter_offsets.push(coding::low_32_bits(self.result.len()));
        if num_keys > 0 {
            let mut slices: Vec<&[u8]> = Vec::new();
            let bytes: &[u8] = self.keys.as_slice();
            let mut index: usize = 0;
            while index < num_keys
                invariant
                    num_keys == self.start@.len(),
                    bytes@ == self.keys@,
                    rises(self.start@, bytes@.len()),
                    index <= num_keys,
                    slices@.len() == index,
                    forall|i: int|
                        0 <= i < index ==> #[trigger] slices@[i]@ == piece(bytes@, self.start@, i),
                decreases num_keys - index,
            {
                let from: usize = self.start[index];
                let to: usize = if index + 1 < num_keys {
                    self.start[index + 1]
                } else {
                    bytes.len()
                };
                slices.push(&bytes[from..to]);
                index = index + 1;
            }
            proof {
                assert(filter::key_views(slices@) =~= waiting);
            }
            self.policy.create_filter(slices.as_slice(), &mut self.result);
            self.keys.clear();
            self.start.clear();
        } else {
            assert(self.result@ + Seq::<u8>::empty() =~= self.result@);
        }
        proof {
            self.closed@ = after;
            assert(self.pending() =~= Seq::<Seq<u8>>::empty());
        }
    }
}

/// The starts rise and stay within the bytes.
spec fn rises(starts: Seq<usize>, length: nat) -> bool {
    &&& forall|i: int| 0 <= i < starts.len() ==> #[trigger] starts[i] <= length
    &&& forall|i: int, j: int|
        0 <= i < j < starts.len() ==> #[trigger] starts[i] <= #[trigger] starts[j]
}

/// The piece of the bytes from one start to the next.
spec fn piece(bytes: Seq<u8>, starts: Seq<usize>, index: int) -> Seq<u8> {
    bytes.subrange(
        starts[index] as int,
        if index + 1 < starts.len() {
            starts[index + 1] as int
        } else {
            bytes.len() as int
        },
    )
}

/// The pieces of the bytes.
spec fn pieces(bytes: Seq<u8>, starts: Seq<usize>) -> Seq<Seq<u8>> {
    Seq::new(starts.len(), |i: int| piece(bytes, starts, i))
}

proof fn lemma_piece_added(bytes: Seq<u8>, starts: Seq<usize>, key: Seq<u8>)
    requires
        rises(starts, bytes.len()),
        bytes.len() <= usize::MAX,
    ensures
        rises(starts.push(bytes.len() as usize), (bytes + key).len()),
        pieces(bytes + key, starts.push(bytes.len() as usize)) == pieces(bytes, starts).push(key),
{
    let longer = bytes + key;
    let more = starts.push(bytes.len() as usize);
    assert forall|i: int| 0 <= i < more.len() implies #[trigger] piece(longer, more, i) == pieces(
        bytes,
        starts,
    ).push(key)[i] by {
        if i < starts.len() {
            assert(more[i] == starts[i]);
            if i + 1 < starts.len() {
                assert(more[i + 1] == starts[i + 1]);
            }
            assert(piece(longer, more, i) =~= piece(bytes, starts, i));
        } else {
            assert(piece(longer, more, i) =~= key);
        }
    }
    assert(pieces(longer, more) =~= pieces(bytes, starts).push(key));
}

proof fn lemma_starts_push<P: FilterPolicy>(
    policy: P,
    groups: Seq<Seq<Seq<u8>>>,
    group: Seq<Seq<u8>>,
)
    ensures
        filter_starts(policy, groups.push(group)) == filter_starts(policy, groups).push(
            (filter_data(policy, groups).len() % coding::two_pow_32()) as u32,
        ),
{
    let more = groups.push(group);
    assert forall|i: int| 0 <= i < more.len() implies #[trigger] more.take(i) == if i
        < groups.len() {
        groups.take(i)
    } else {
        groups
    } by {
        assert(more.take(i) =~= if i < groups.len() {
            groups.take(i)
        } else {
            groups
        });
    }
    assert(filter_starts(policy, more) =~= filter_starts(policy, groups).push(
        (filter_data(policy, groups).len() % coding::two_pow_32()) as u32,
    ));
}

// ---------------------------------------------------------------------------
// Reader
// ---------------------------------------------------------------------------

/// Asks the filters of a filter block.
pub struct FilterBlockReader<'a, P: FilterPolicy> {
    policy: P,
    data: &'a [u8],
    offset_array_start: usize,
    num_filters: usize,
    base_lg: u8,
}

impl<'a, P: FilterPolicy> FilterBlockReader<'a, P> {
    /// The bytes of the filter block.
    pub closed spec fn image(&self) -> Seq<u8> {
        self.data@
    }

    /// The policy of the filters.
    pub closed spec fn filter_policy(&self) -> P {
        self.policy
    }

    /// The offsets are where the bytes say.
    pub closed spec fn wf(&self) -> bool {
        &&& is_filter_block(self.data@)
        &&& self.offset_array_start == array_offset(self.data@)
        &&& self.num_filters == filter_count(self.data@)
        &&& self.base_lg == base_of(self.data@)
    }

    pub fn new(policy: P, contents: &'a [u8]) -> (reader: Option<Self>)
        ensures
            match reader {
                None => !is_filter_block(contents@),
                Some(r) => is_filter_block(contents@) && r.wf() && r.image() == contents@
                    && r.filter_policy() == policy,
            },
    {
        let n: usize = contents.len();
        if n < 5 {
            return None;
        }
        let base_lg = contents[n - 1];
        let array_start = coding::decode_fixed32(&contents[n - 5..n - 1]) as usize;
        assert(contents@.subrange(n - 5, n - 1).take(4) =~= contents@.subrange(n - 5, n - 1));
        if array_start > n - 5 {
            return None;
        }
        let num_filters: usize = (n - 5 - array_start) / 4;
        Some(
            FilterBlockReader {
                policy,
                data: contents,
                offset_array_start: array_start,
                num_filters,
                base_lg,
            },
        )
    }

    /// The offset of the filter at `index`, or where the filters end.
    fn offset_at(&self, index: usize) -> (offset: usize)
        requires
            self.wf(),
        ensures
            offset == filter_offset(self.data@, index as int),
    {
        let length: usize = self.data.len();
        if index < self.num_filters {
            let at: usize = self.offset_array_start + index * 4;
            let offset = coding::decode_fixed32(&self.data[at..length]);
            assert(self.data@.subrange(at as int, length as int).take(4) =~= self.data@.subrange(
                at as int,
                at + 4,
            ));
            offset as usize
        } else {
            self.offset_array_start
        }
    }

    pub fn key_may_match(&self, block_offset: u64, key: &[u8]) -> (answer: bool)
        requires
            self.wf(),
        ensures
            answer == block_admits(self.filter_policy(), self.image(), block_offset, key@),
    {
        let wide_index: u64 = if self.base_lg >= 64 {
            0
        } else {
            block_offset >> (self.base_lg as u64)
        };
        if wide_index >= self.num_filters as u64 {
            return true;
        }
        let index: usize = wide_index as usize;
        let start = self.offset_at(index);
        let limit = self.offset_at(index + 1);
        if start <= limit && limit <= self.offset_array_start {
            self.policy.key_may_match(key, &self.data[start..limit])
        } else {
            true
        }
    }
}

// ---------------------------------------------------------------------------
// Laws
// ---------------------------------------------------------------------------

/// The filters of the first groups lie at the front.
proof fn lemma_filter_data_prefix<P: FilterPolicy>(
    policy: P,
    groups: Seq<Seq<Seq<u8>>>,
    count: int,
)
    requires
        0 <= count <= groups.len(),
    ensures
        filter_data(policy, groups.take(count)).len() <= filter_data(policy, groups).len(),
        filter_data(policy, groups).take(filter_data(policy, groups.take(count)).len() as int)
            == filter_data(policy, groups.take(count)),
    decreases groups.len() - count,
{
    let all = filter_data(policy, groups);
    let part = filter_data(policy, groups.take(count));
    if count == groups.len() {
        assert(groups.take(count) =~= groups);
        assert(all.take(all.len() as int) =~= all);
    } else {
        lemma_filter_data_prefix(policy, groups, count + 1);
        let more = filter_data(policy, groups.take(count + 1));
        assert(groups.take(count + 1).drop_last() =~= groups.take(count));
        assert(all.take(part.len() as int) =~= all.take(more.len() as int).take(part.len() as int));
        assert(more.take(part.len() as int) =~= part);
    }
}

/// A finished filter block says of a key in a data block just what the policy says of it and the
/// filter of the group that the block belongs to, as long as all offsets fit in 32 bits.
pub proof fn law_filter_of_group_is_asked<P: FilterPolicy>(
    policy: P,
    groups: Seq<Seq<Seq<u8>>>,
    block_offset: u64,
    key: Seq<u8>,
)
    requires
        block_offset as int / 2048 < groups.len(),
        filter_image(policy, groups).len() < coding::two_pow_32(),
    ensures
        is_filter_block(filter_image(policy, groups)),
        groups[block_offset as int / 2048].len() > 0 ==> block_admits(
            policy,
            filter_image(policy, groups),
            block_offset,
            key,
        ) == policy.admits(key, policy.filter(groups[block_offset as int / 2048])),
        groups[block_offset as int / 2048].len() == 0 ==> block_admits(
            policy,
            filter_image(policy, groups),
            block_offset,
            key,
        ) == policy.admits(key, Seq::empty()),
{
    let image = filter_image(policy, groups);
    let data = filter_data(policy, groups);
    let starts = filter_starts(policy, groups);
    let words = block_restart_trailer::words(starts);
    let tail = coding::le_bytes(data.len() % coding::two_pow_32(), 4);
    let index = block_offset as int / 2048;
    block_restart_trailer::lemma_words(starts);
    coding::lemma_le_bytes_len(data.len() % coding::two_pow_32(), 4);
    coding::lemma_pow256_values();
    coding::law_fixed_round_trip(data.len() % coding::two_pow_32(), 4);
    assert(image.subrange(image.len() - 5, image.len() - 1) =~= tail);
    assert(array_offset(image) == data.len());
    assert(filter_count(image) == groups.len());
    assert(image.last() == 11u8);
    assert(block_offset >> 11u64 == block_offset / 2048) by (bit_vector);
    assert(filter_index(image, block_offset) == index);
    assert forall|i: int| 0 <= i <= groups.len() implies #[trigger] filter_offset(image, i)
        == filter_data(policy, groups.take(i)).len() by {
        if i < groups.len() {
            lemma_filter_data_prefix(policy, groups, i);
            let at = data.len() + 4 * i;
            assert(image.subrange(at, at + 4) =~= words.subrange(4 * i, 4 * i + 4));
            assert(block_restart_trailer::word_at(words, i) == starts[i]);
            coding::law_fixed_read_write(words.subrange(4 * i, 4 * i + 4));
        } else {
            assert(groups.take(i) =~= groups);
        }
    }
    let start = filter_offset(image, index);
    let limit = filter_offset(image, index + 1);
    lemma_filter_data_prefix(policy, groups, index);
    lemma_filter_data_prefix(policy, groups, index + 1);
    assert(groups.take(index + 1).drop_last() =~= groups.take(index));
    assert(groups.take(index + 1).last() == groups[index]);
    let found = image.subrange(start as int, limit as int);
    let upto = filter_data(policy, groups.take(index + 1));
    assert(data.take(limit as int) == upto);
    assert(found =~= data.take(limit as int).skip(start as int));
    assert(found =~= group_filter(policy, groups[index]));
}

/// A finished filter block never denies a key of the group that a data block
/// belongs to, as long as all offsets fit in 32 bits.
pub proof fn law_no_false_negative<P: FilterPolicy>(
    policy: P,
    groups: Seq<Seq<Seq<u8>>>,
    block_offset: u64,
    key: Seq<u8>,
)
    requires
        block_offset as int / 2048 < groups.len(),
        groups[block_offset as int / 2048].contains(key),
        filter::honest(&policy, groups[block_offset as int / 2048]),
        filter_image(policy, groups).len() < coding::two_pow_32(),
    ensures
        is_filter_block(filter_image(policy, groups)),
        block_admits(policy, filter_image(policy, groups), block_offset, key),
{
    law_filter_of_group_is_asked(policy, groups, block_offset, key);
}

/// Each key of a data block waits, or is in the group that the offset of its block names, if
/// the offsets of the blocks never fall.
proof fn lemma_built(blocks: Seq<(u64, Seq<Seq<u8>>)>, at: int, key: Seq<u8>)
    requires
        in_order(blocks),
        0 <= at < blocks.len(),
        blocks[at].1.contains(key),
    ensures
        built(blocks).0.len() == blocks.last().0 as int / 2048,
        blocks[at].0 as int / 2048 < built(blocks).0.len() ==> built(
            blocks,
        ).0[blocks[at].0 as int / 2048].contains(key),
        blocks[at].0 as int / 2048 == built(blocks).0.len() ==> built(blocks).1.contains(key),
    decreases blocks.len(),
{
    let front = blocks.drop_last();
    let (groups, pending) = built(front);
    let (offset, keys) = blocks.last();
    let index = offset as int / 2048;
    lemma_built_len(front);
    assert(index >= groups.len()) by {
        if front.len() > 0 {
            assert(blocks[front.len() - 1].0 <= blocks[front.len() as int].0);
        }
    }
    let place = blocks[at].0 as int / 2048;
    if at < front.len() {
        lemma_built(front, at, key);
        assert(blocks[at].0 <= blocks[front.len() - 1].0);
        if index == groups.len() {
            if pending.contains(key) {
                let i = pending.index_of(key);
                assert((pending + keys)[i] == key);
            }
        } else {
            assert(groups_up_to(groups, pending, index)[groups.len() as int] == pending);
            assert(place <= groups.len());
            if place < groups.len() {
                assert(groups_up_to(groups, pending, index)[place] == groups[place]);
            }
        }
    } else {
        let i = keys.index_of(key);
        if index == groups.len() {
            assert((pending + keys)[pending.len() + i] == key);
        }
    }
}

/// There are as many groups as the last data block asks for.
proof fn lemma_built_len(blocks: Seq<(u64, Seq<Seq<u8>>)>)
    requires
        in_order(blocks),
    ensures
        built(blocks).0.len() == if blocks.len() == 0 {
            0
        } else {
            blocks.last().0 as int / 2048
        },
    decreases blocks.len(),
{
    if blocks.len() > 0 {
        let front = blocks.drop_last();
        lemma_built_len(front);
        if front.len() > 0 {
            assert(blocks[front.len() - 1].0 <= blocks[front.len() as int].0);
        }
    }
}

/// Whether the offsets of data blocks never fall.
pub open spec fn in_order(blocks: Seq<(u64, Seq<Seq<u8>>)>) -> bool {
    forall|i: int, j: int|
        0 <= i <= j < blocks.len() ==> (#[trigger] blocks[i]).0 <= (#[trigger] blocks[j]).0
}

/// A filter block that was built of data blocks whose offsets never fall can be read, and
/// never denies a key of a data block at the offset of that block, as long as all offsets of
/// the filters fit in 32 bits.
pub proof fn law_built_denies_no_key<P: FilterPolicy>(
    policy: P,
    blocks: Seq<(u64, Seq<Seq<u8>>)>,
    at: int,
    key: Seq<u8>,
)
    requires
        in_order(blocks),
        0 <= at < blocks.len(),
        blocks[at].1.contains(key),
        all_honest(policy, built_groups(blocks)),
        filter_image(policy, built_groups(blocks)).len() < coding::two_pow_32(),
    ensures
        is_filter_block(filter_image(policy, built_groups(blocks))),
        block_admits(policy, filter_image(policy, built_groups(blocks)), blocks[at].0, key),
{
    let (groups, pending) = built(blocks);
    let last = built_groups(blocks);
    let place = blocks[at].0 as int / 2048;
    lemma_built(blocks, at, key);
    assert(blocks[at].0 <= blocks[blocks.len() - 1].0);
    assert(last[place].contains(key)) by {
        if place < groups.len() {
            assert(last[place] == groups[place]);
        } else {
            let i = pending.index_of(key);
            assert(0 <= i < pending.len());
            assert(last[place] == pending);
        }
    }
    assert(last[place].len() > 0);
    law_no_false_negative(policy, last, blocks[at].0, key);
}

} // verus!
