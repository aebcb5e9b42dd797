//! Iterator over an index and the blocks behind its entries.
//!
//! The outer iterator runs over the index; the inner one runs over one block at a
//! time, which is loaded when it is needed.

use vstd::prelude::*;

use crate::cache;
use crate::db_iter::db_iterator;
use crate::db_iter::db_iterator::DbIterator;
use crate::db_iter::db_iterator::Scan;
use crate::status;
use crate::status::Status;

verus! {

/// The blocks behind the entries of an index.
pub struct Blocks {
    /// What the block behind a handle holds; `None` where there is no sound block.
    pub source: spec_fn(Seq<u8>) -> Option<Scan>,
    /// The keys that may be sought in a block.
    pub domain: spec_fn(Seq<u8>) -> bool,
}

/// Loads the blocks behind the entries of an index.
pub trait BlockFunction {
    type Iter: DbIterator;

    /// The blocks that it loads.
    spec fn blocks(&self) -> Blocks;

    /// Whether each sound block loads.
    spec fn sure(&self) -> bool;

    fn load(&self, handle: &[u8]) -> (loaded: status::Result<Self::Iter>)
        ensures
            loaded matches Ok(iter) ==> iter.wf() && iter.scan().admits == self.blocks().domain
                && iter.scan().failure is None,
            (self.blocks().source)(handle@) matches Some(source) ==> {
                &&& self.sure() ==> loaded is Ok
                &&& loaded matches Ok(iter) ==> iter.scan().alike(source) && (source.steady
                    ==> iter.scan().steady)
            },
    ;
}

/// What is behind an entry of the index.
pub open spec fn behind_entry(
    function: Blocks,
    index: Map<Seq<u8>, Seq<u8>>,
    place: Seq<u8>,
) -> Scan {
    (function.source)(index[place])->0
}

/// Whether a key is in the block behind an entry of the index.
pub open spec fn lies_behind(
    function: Blocks,
    index: Map<Seq<u8>, Seq<u8>>,
    place: Seq<u8>,
    key: Seq<u8>,
) -> bool {
    index.contains_key(place) && behind_entry(function, index, place).contents.contains_key(key)
}

/// Whether a key is in some block.
pub open spec fn lies_somewhere(
    function: Blocks,
    index: Map<Seq<u8>, Seq<u8>>,
    key: Seq<u8>,
) -> bool {
    exists|place: Seq<u8>| lies_behind(function, index, place, key)
}

/// The entries of all blocks.
pub open spec fn all_blocks(
    function: Blocks,
    index: Map<Seq<u8>, Seq<u8>>,
) -> Map<Seq<u8>, Seq<u8>> {
    Map::new(
        |key: Seq<u8>| lies_somewhere(function, index, key),
        |key: Seq<u8>|
            behind_entry(
                function,
                index,
                choose|place: Seq<u8>| lies_behind(function, index, place, key),
            ).contents[key],
    )
}

/// The index fits the blocks: each block loads and is sound, and the index keys
/// part the blocks.
pub open spec fn joint(function: Blocks, index: Scan) -> bool {
    &&& index.intact
    &&& db_iterator::in_a_row(index)
    &&& function.domain == index.admits
    &&& forall|place: Seq<u8>| #[trigger]
        index.contents.contains_key(place) ==> {
            let source = behind_entry(function, index.contents, place);
            &&& (function.source)(index.contents[place]) is Some
            &&& source.intact
            &&& source.before == index.before
            &&& source.admits == index.admits
        }
    &&& forall|place: Seq<u8>, key: Seq<u8>| #[trigger]
        lies_behind(function, index.contents, place, key) ==> (index.admits)(key) && !(
        index.before)(place, key)
    &&& forall|first: Seq<u8>, second: Seq<u8>, key: Seq<u8>|
        #![trigger index.contents.contains_key(first), lies_behind(function, index.contents, second, key)]
        index.contents.contains_key(first) && lies_behind(function, index.contents, second, key)
            && (index.before)(first, second) ==> (index.before)(first, key)
}

/// The index and all blocks behind it can always be read.
pub open spec fn readable(function: Blocks, sure: bool, index: Scan) -> bool {
    &&& index.steady
    &&& sure
    &&& forall|place: Seq<u8>| #[trigger]
        index.contents.contains_key(place) ==> behind_entry(
            function,
            index.contents,
            place,
        ).steady
}

/// No key of the blocks ahead of `place` is wanted, and all keys of the blocks
/// behind it are. Without a place no key at all is wanted.
pub open spec fn wanted_from(
    function: Blocks,
    index: Scan,
    place: Option<Seq<u8>>,
    wanted: spec_fn(Seq<u8>) -> bool,
) -> bool {
    match place {
        None => forall|other: Seq<u8>, key: Seq<u8>| #[trigger]
            lies_behind(function, index.contents, other, key) ==> !wanted(key),
        Some(at) => {
            &&& index.contents.contains_key(at)
            &&& forall|other: Seq<u8>, key: Seq<u8>| #[trigger]
                lies_behind(function, index.contents, other, key) && (index.before)(other, at)
                    ==> !wanted(key)
            &&& forall|other: Seq<u8>, key: Seq<u8>| #[trigger]
                lies_behind(function, index.contents, other, key) && (index.before)(at, other)
                    ==> wanted(key)
        },
    }
}

/// All keys of the blocks ahead of `place` are wanted, and no key of the blocks
/// behind it is. Without a place no key at all is wanted.
pub open spec fn wanted_upto(
    function: Blocks,
    index: Scan,
    place: Option<Seq<u8>>,
    wanted: spec_fn(Seq<u8>) -> bool,
) -> bool {
    match place {
        None => forall|other: Seq<u8>, key: Seq<u8>| #[trigger]
            lies_behind(function, index.contents, other, key) ==> !wanted(key),
        Some(at) => {
            &&& index.contents.contains_key(at)
            &&& forall|other: Seq<u8>, key: Seq<u8>| #[trigger]
                lies_behind(function, index.contents, other, key) && (index.before)(at, other)
                    ==> !wanted(key)
            &&& forall|other: Seq<u8>, key: Seq<u8>| #[trigger]
                lies_behind(function, index.contents, other, key) && (index.before)(other, at)
                    ==> wanted(key)
        },
    }
}

/// The key on which a scan stands.
pub open spec fn place_of(scan: Scan) -> Option<Seq<u8>> {
    match scan.current {
        None => None,
        Some((key, _)) => Some(key),
    }
}

/// Whether an index fits its blocks rests on what it runs over alone.
pub proof fn lemma_same_joint(function: Blocks, a: Scan, b: Scan)
    requires
        a.alike(b),
    ensures
        joint(function, a) == joint(function, b),
{
}

/// A key lies in one block only.
pub proof fn lemma_one_block(
    function: Blocks,
    index: Scan,
    place: Seq<u8>,
    key: Seq<u8>,
)
    requires
        joint(function, index),
        lies_behind(function, index.contents, place, key),
    ensures
        all_blocks(function, index.contents).contains_key(key),
        all_blocks(function, index.contents)[key] == behind_entry(
            function,
            index.contents,
            place,
        ).contents[key],
        forall|other: Seq<u8>| #[trigger]
            lies_behind(function, index.contents, other, key) ==> other == place,
{
    assert(lies_somewhere(function, index.contents, key));
    assert forall|other: Seq<u8>| #[trigger]
        lies_behind(function, index.contents, other, key) implies other == place by {
        assert(index.contents.contains_key(other));
        assert(index.contents.contains_key(place));
        if other != place {
            assert((index.before)(other, place) || (index.before)(place, other));
        }
    }
}

/// The least wanted key of a block is the least of all, if no key of the blocks
/// ahead is wanted.
proof fn lemma_least_of_all(
    function: Blocks,
    index: Scan,
    place: Seq<u8>,
    inner: Scan,
    whole: Scan,
    wanted: spec_fn(Seq<u8>) -> bool,
)
    requires
        joint(function, index),
        wanted_from(function, index, Some(place), wanted),
        inner.alike(behind_entry(function, index.contents, place)),
        inner.on_least(wanted),
        inner.current is Some,
        whole.contents == all_blocks(function, index.contents),
        whole.before == index.before,
        whole.current == inner.current,
    ensures
        whole.on_least(wanted),
{
    let key = inner.key();
    assert(lies_behind(function, index.contents, place, key));
    lemma_one_block(function, index, place, key);
    assert forall|other: Seq<u8>| #[trigger]
        whole.contents.contains_key(other) && wanted(other) && other != key implies (
    whole.before)(key, other) by {
        let home = choose|home: Seq<u8>| lies_behind(function, index.contents, home, other);
        assert(lies_behind(function, index.contents, home, other));
        if home == place {
            assert(inner.contents.contains_key(other));
        } else {
            assert(index.contents.contains_key(home));
            assert(index.contents.contains_key(place));
            assert((index.before)(place, home));
            assert((index.before)(place, other));
            db_iterator::lemma_order_splits(index.before, index.admits, place, key, other);
        }
    }
}

/// The greatest wanted key of a block is the greatest of all, if no key of the
/// blocks behind is wanted.
proof fn lemma_greatest_of_all(
    function: Blocks,
    index: Scan,
    place: Seq<u8>,
    inner: Scan,
    whole: Scan,
    wanted: spec_fn(Seq<u8>) -> bool,
)
    requires
        joint(function, index),
        wanted_upto(function, index, Some(place), wanted),
        inner.alike(behind_entry(function, index.contents, place)),
        inner.on_greatest(wanted),
        inner.current is Some,
        whole.contents == all_blocks(function, index.contents),
        whole.before == index.before,
        whole.current == inner.current,
    ensures
        whole.on_greatest(wanted),
{
    let key = inner.key();
    assert(lies_behind(function, index.contents, place, key));
    lemma_one_block(function, index, place, key);
    assert forall|other: Seq<u8>| #[trigger]
        whole.contents.contains_key(other) && wanted(other) && other != key implies (
    whole.before)(other, key) by {
        let home = choose|home: Seq<u8>| lies_behind(function, index.contents, home, other);
        assert(lies_behind(function, index.contents, home, other));
        if home == place {
            assert(inner.contents.contains_key(other));
        } else {
            assert(index.contents.contains_key(home));
            assert(index.contents.contains_key(place));
            assert((index.before)(home, place));
            assert((index.before)(home, key));
            db_iterator::lemma_order_splits(index.before, index.admits, home, other, key);
        }
    }
}

/// Going on to the next block when no key of the current one is wanted.
proof fn lemma_next_block(
    function: Blocks,
    earlier: Scan,
    later: Scan,
    inner: Scan,
    wanted: spec_fn(Seq<u8>) -> bool,
)
    requires
        joint(function, earlier),
        earlier.current is Some,
        wanted_from(function, earlier, place_of(earlier), wanted),
        inner.alike(behind_entry(function, earlier.contents, earlier.key())),
        inner.on_least(wanted),
        inner.current is None,
        later.same_source(earlier),
        later.after(earlier.key()),
    ensures
        wanted_from(function, later, place_of(later), wanted),
        later.current is Some ==> forall|key: Seq<u8>| #[trigger]
            lies_behind(function, later.contents, later.key(), key) ==> wanted(key),
{
    let from = earlier.key();
    assert forall|other: Seq<u8>, key: Seq<u8>|
        (#[trigger] lies_behind(function, later.contents, other, key)) && (later.current is Some
            ==> (later.before)(other, later.key())) implies !wanted(key) by {
        assert(earlier.contents.contains_key(other));
        if other == from {
            assert(inner.contents.contains_key(key));
        } else if (earlier.before)(from, other) {
            assert(later.contents.contains_key(other));
            if later.current is Some {
                assert(later.contents.contains_key(later.key()));
                if other != later.key() {
                    assert((later.before)(later.key(), other));
                }
                db_iterator::lemma_order_asymmetric(
                    later.before,
                    later.admits,
                    other,
                    later.key(),
                );
            }
        } else {
            assert((earlier.before)(other, from));
        }
    }
    if later.current is Some {
        let to = later.key();
        assert(later.contents.contains_key(to));
        assert((earlier.before)(from, to));
        assert forall|other: Seq<u8>, key: Seq<u8>| #[trigger]
            lies_behind(function, later.contents, other, key) && (later.before)(
                to,
                other,
            ) implies wanted(key) by {
            assert(earlier.contents.contains_key(other));
            db_iterator::lemma_order_transitive(later.before, later.admits, from, to, other);
            assert(lies_behind(function, earlier.contents, other, key));
        }
        assert forall|key: Seq<u8>| #[trigger]
            lies_behind(function, later.contents, to, key) implies wanted(key) by {
            assert(lies_behind(function, earlier.contents, to, key));
        }
    }
}

/// Going back to the block before when no key of the current one is wanted.
proof fn lemma_previous_block(
    function: Blocks,
    earlier: Scan,
    later: Scan,
    inner: Scan,
    wanted: spec_fn(Seq<u8>) -> bool,
)
    requires
        joint(function, earlier),
        earlier.current is Some,
        wanted_upto(function, earlier, place_of(earlier), wanted),
        inner.alike(behind_entry(function, earlier.contents, earlier.key())),
        inner.on_greatest(wanted),
        inner.current is None,
        later.same_source(earlier),
        later.ahead_of(earlier.key()),
    ensures
        wanted_upto(function, later, place_of(later), wanted),
        later.current is Some ==> forall|key: Seq<u8>| #[trigger]
            lies_behind(function, later.contents, later.key(), key) ==> wanted(key),
{
    let from = earlier.key();
    assert forall|other: Seq<u8>, key: Seq<u8>|
        (#[trigger] lies_behind(function, later.contents, other, key)) && (later.current is Some
            ==> (later.before)(later.key(), other)) implies !wanted(key) by {
        assert(earlier.contents.contains_key(other));
        if other == from {
            assert(inner.contents.contains_key(key));
        } else if (earlier.before)(other, from) {
            assert(later.contents.contains_key(other));
            if later.current is Some {
                assert(later.contents.contains_key(later.key()));
                if other != later.key() {
                    assert((later.before)(other, later.key()));
                }
                db_iterator::lemma_order_asymmetric(
                    later.before,
                    later.admits,
                    later.key(),
                    other,
                );
            }
        } else {
            assert((earlier.before)(from, other));
        }
    }
    if later.current is Some {
        let to = later.key();
        assert(later.contents.contains_key(to));
        assert((earlier.before)(to, from));
        assert forall|other: Seq<u8>, key: Seq<u8>| #[trigger]
            lies_behind(function, later.contents, other, key) && (later.before)(
                other,
                to,
            ) implies wanted(key) by {
            assert(earlier.contents.contains_key(other));
            db_iterator::lemma_order_transitive(later.before, later.admits, other, to, from);
            assert(lies_behind(function, earlier.contents, other, key));
        }
        assert forall|key: Seq<u8>| #[trigger]
            lies_behind(function, later.contents, to, key) implies wanted(key) by {
            assert(lies_behind(function, earlier.contents, to, key));
        }
    }
}

/// Runs over all blocks of an index, one after the other.
pub struct TwoLevelIterator<O: DbIterator, F: BlockFunction> {
    index_iter: O,
    data_iter: Option<F::Iter>,
    block_function: F,
    /// The handle from which the current block was loaded.
    data_block_handle: Vec<u8>,
    failure: Option<Status>,
}

impl<O: DbIterator, F: BlockFunction> TwoLevelIterator<O, F> {
    /// The index.
    pub closed spec fn index(&self) -> Scan {
        self.index_iter.scan()
    }

    /// What loads the blocks.
    pub closed spec fn function(&self) -> F {
        self.block_function
    }

    /// The blocks.
    spec fn blocks(&self) -> Blocks {
        self.block_function.blocks()
    }

    /// The index fits the blocks, and nothing went wrong so far.
    spec fn sound(&self) -> bool {
        joint(self.blocks(), self.index()) && self.first_failure() is None
    }

    /// The index fits the blocks, and led to the block in hand.
    spec fn led(&self) -> bool {
        &&& joint(self.blocks(), self.index())
        &&& self.failure is None
        &&& self.index().failure is None
    }

    /// The index fits the blocks, and all can always be read.
    spec fn safe(&self) -> bool {
        joint(self.blocks(), self.index()) && readable(
            self.blocks(),
            self.block_function.sure(),
            self.index(),
        )
    }

    /// What holds between and during moves.
    spec fn kept(&self) -> bool {
        &&& self.index_iter.wf()
        &&& self.index().admits == self.blocks().domain
        &&& self.safe() ==> self.failure is None && self.index().failure is None
        &&& self.data_iter matches Some(data) ==> {
            &&& data.wf()
            &&& data.scan().admits == self.blocks().domain
            &&& (self.blocks().source)(self.data_block_handle@) matches Some(source)
                ==> data.scan().alike(source) && (source.steady ==> data.scan().steady)
        }
    }

    /// Only the position differs.
    spec fn same_index(&self, other: &Self) -> bool {
        &&& self.block_function == other.block_function
        &&& self.index().same_source(other.index())
    }

    /// The block in hand is the one behind the current entry of the index.
    spec fn in_step(&self) -> bool {
        &&& self.safe() ==> (self.data_iter matches Some(data) ==> data.scan().failure is None)
        &&& self.led() ==> {
            &&& self.data_iter is Some <==> self.index().current is Some
            &&& self.data_iter matches Some(data) ==> {
                &&& self.index().contents.contains_key(self.index().key())
                &&& data.scan().alike(
                    behind_entry(self.blocks(), self.index().contents, self.index().key()),
                )
                &&& behind_entry(
                    self.blocks(),
                    self.index().contents,
                    self.index().key(),
                ).steady ==> data.scan().steady
            }
        }
    }

    /// Where the iterator stands nowhere, either the index is at its end or what went wrong
    /// is told.
    pub open spec fn tells(&self) -> bool {
        self.scan().current is None && self.index().current is Some ==> self.scan().failure is Some
    }

    /// What went wrong first: what is kept already, or else what the index or the block
    /// in hand tells.
    spec fn first_failure(&self) -> Option<Status> {
        if self.failure is Some {
            self.failure
        } else if self.index().failure is Some {
            self.index().failure
        } else {
            match self.data_iter {
                None => None,
                Some(data) => data.scan().failure,
            }
        }
    }

    pub fn new(index_iter: O, block_function: F) -> (iter: Self)
        requires
            index_iter.wf(),
            index_iter.scan().admits == block_function.blocks().domain,
            index_iter.scan().current is None,
            index_iter.scan().failure is None,
        ensures
            iter.wf(),
            iter.index() == index_iter.scan(),
            iter.function() == block_function,
            iter.scan().current is None,
            iter.scan().failure is None,
    {
        TwoLevelIterator {
            index_iter,
            data_iter: None,
            block_function,
            data_block_handle: Vec::new(),
            failure: None,
        }
    }

    /// What the iterator runs over.
    pub proof fn lemma_scan(&self)
        ensures
            self.scan().contents == all_blocks(self.function().blocks(), self.index().contents),
            self.scan().before == self.index().before,
            self.scan().admits == self.index().admits,
            self.scan().intact == joint(self.function().blocks(), self.index()),
            self.scan().steady == readable(
                self.function().blocks(),
                self.function().sure(),
                self.index(),
            ),
    {
    }

    /// Keeps the first failure.
    fn save_status(&mut self)
        requires
            old(self).kept(),
            old(self).safe() ==> (old(self).data_iter matches Some(data)
                ==> data.scan().failure is None),
        ensures
            final(self).kept(),
            *final(self) == (TwoLevelIterator { failure: old(self).first_failure(), ..*old(self) }),
            final(self).first_failure() == old(self).first_failure(),
    {
        if self.failure.is_some() {
            return;
        }
        match self.index_iter.status() {
            Err(error) => {
                self.failure = Some(error);
                return;
            },
            Ok(_) => {},
        }
        match &self.data_iter {
            None => {},
            Some(data) => {
                match data.status() {
                    Err(error) => {
                        self.failure = Some(error);
                    },
                    Ok(_) => {},
                }
            },
        }
    }

    /// Loads the block behind the current entry of the index, unless it is the one
    /// in hand. What went wrong with the block that is left stays told.
    fn init_data_block(&mut self)
        requires
            old(self).kept(),
            joint(old(self).blocks(), old(self).index()) && old(self).index().good()
                && old(self).index().current is Some ==> old(self).index().contents.contains_key(
                old(self).index().key(),
            ) && old(self).index().contents[old(self).index().key()] == old(self).index().value(),
            old(self).safe() ==> (old(self).data_iter matches Some(data)
                ==> data.scan().failure is None),
        ensures
            final(self).kept(),
            final(self).in_step(),
            old(self).first_failure() is Some ==> final(self).first_failure() is Some,
            final(self).index_iter == old(self).index_iter,
            final(self).block_function == old(self).block_function,
            old(self).index().current is None ==> final(self).data_iter is None,
            final(self).data_iter is None && final(self).index().current is Some ==> final(
                self).failure is Some,
    {
        if !self.index_iter.valid() {
            self.save_status();
            self.data_iter = None;
            return;
        }
        let handle = vstd::slice::slice_to_vec(self.index_iter.value());
        if self.data_iter.is_some() && cache::same_bytes(
            handle.as_slice(),
            self.data_block_handle.as_slice(),
        ) {
            return;
        }
        self.save_status();
        match self.block_function.load(handle.as_slice()) {
            Ok(iter) => {
                self.data_iter = Some(iter);
                self.data_block_handle = handle;
            },
            Err(error) => {
                self.data_iter = None;
                self.failure = Some(error);
            },
        }
    }

    fn data_valid(&self) -> (answer: bool)
        requires
            self.kept(),
        ensures
            answer == (self.data_iter matches Some(data) && data.scan().current is Some),
    {
        match &self.data_iter {
            None => false,
            Some(data) => data.valid(),
        }
    }

    fn data_to_first(&mut self)
        requires
            old(self).kept(),
            old(self).in_step(),
        ensures
            final(self).kept(),
            final(self).in_step(),
            *final(self) == (TwoLevelIterator { data_iter: final(self).data_iter, ..*old(self) }),
            joint(old(self).blocks(), old(self).index()) && old(self).first_failure() is Some
                ==> final(self).first_failure() is Some,
            final(self).sound() ==> (final(self).data_iter matches Some(data)
                ==> data.scan().at_first()),
    {
        match &mut self.data_iter {
            None => {},
            Some(data) => {
                data.seek_to_first();
            },
        }
    }

    fn data_to_last(&mut self)
        requires
            old(self).kept(),
            old(self).in_step(),
        ensures
            final(self).kept(),
            final(self).in_step(),
            *final(self) == (TwoLevelIterator { data_iter: final(self).data_iter, ..*old(self) }),
            joint(old(self).blocks(), old(self).index()) && old(self).first_failure() is Some
                ==> final(self).first_failure() is Some,
            final(self).sound() ==> (final(self).data_iter matches Some(data)
                ==> data.scan().at_last()),
    {
        match &mut self.data_iter {
            None => {},
            Some(data) => {
                data.seek_to_last();
            },
        }
    }

    /// Goes on until a block has an entry to stand on.
    #[verifier::spinoff_prover]
    #[verifier::rlimit(40)]
    fn skip_empty_data_blocks_forward(&mut self, Ghost(wanted): Ghost<spec_fn(Seq<u8>) -> bool>)
        requires
            old(self).kept(),
            old(self).in_step(),
            old(self).sound() ==> wanted_from(
                old(self).blocks(),
                old(self).index(),
                place_of(old(self).index()),
                wanted,
            ) && (old(self).data_iter matches Some(data) ==> data.scan().on_least(wanted)),
        ensures
            final(self).wf(),
            final(self).same_index(old(self)),
            final(self).tells(),
            old(self).first_failure() is Some ==> final(self).first_failure() is Some,
            final(self).sound() ==> final(self).scan().on_least(wanted),
    {
        let ghost whole = joint(self.blocks(), self.index());
        let mut left: u64 = u64::MAX;
        proof {
            if whole {
                db_iterator::lemma_ahead_bounded(self.index());
            }
        }
        while !self.data_valid()
            invariant
                self.kept(),
                self.in_step(),
                self.same_index(old(self)),
                whole == joint(self.blocks(), self.index()),
                self.sound() ==> wanted_from(
                    self.blocks(),
                    self.index(),
                    place_of(self.index()),
                    wanted,
                ) && (self.data_iter matches Some(data) ==> data.scan().on_least(wanted)),
                old(self).first_failure() is Some ==> self.first_failure() is Some,
                self.sound() ==> db_iterator::ahead(self.index()) <= left,
            decreases left,
        {
            self.save_status();
            if self.failure.is_some() {
                self.data_iter = None;
                return;
            }
            if !self.index_iter.valid() {
                self.data_iter = None;
                return;
            }
            let ghost earlier = self.index();
            let ghost inner = self.data_iter;
            let ghost sure = self.sound();
            proof {
                if sure {
                    db_iterator::lemma_ahead_positive(earlier);
                }
            }
            if left == 0 {
                self.data_iter = None;
                self.failure = Some(Status::corruption("TwoLevelIterator: endless index"));
                return;
            }
            left = left - 1;
            self.index_iter.next();
            proof {
                if sure && self.index().good() {
                    lemma_next_block(
                        self.blocks(),
                        earlier,
                        self.index(),
                        inner->0.scan(),
                        wanted,
                    );
                    db_iterator::lemma_ahead_falls(earlier, self.index());
                }
            }
            self.init_data_block();
            self.data_to_first();
            proof {
                if self.sound() && self.data_iter is Some {
                    let data = self.data_iter->0.scan();
                    assert forall|key: Seq<u8>| #[trigger]
                        data.contents.contains_key(key) implies wanted(key) by {
                        assert(lies_behind(
                            self.blocks(),
                            self.index().contents,
                            self.index().key(),
                            key,
                        ));
                    }
                    assert(data.on_least(wanted));
                }
            }
        }
        proof {
            if self.sound() {
                lemma_least_of_all(
                    self.blocks(),
                    self.index(),
                    self.index().key(),
                    self.data_iter->0.scan(),
                    self.scan(),
                    wanted,
                );
            }
        }
    }

    /// Goes back until a block has an entry to stand on.
    #[verifier::spinoff_prover]
    #[verifier::rlimit(40)]
    fn skip_empty_data_blocks_backward(&mut self, Ghost(wanted): Ghost<spec_fn(Seq<u8>) -> bool>)
        requires
            old(self).kept(),
            old(self).in_step(),
            old(self).sound() ==> wanted_upto(
                old(self).blocks(),
                old(self).index(),
                place_of(old(self).index()),
                wanted,
            ) && (old(self).data_iter matches Some(data) ==> data.scan().on_greatest(wanted)),
        ensures
            final(self).wf(),
            final(self).same_index(old(self)),
            final(self).tells(),
            old(self).first_failure() is Some ==> final(self).first_failure() is Some,
            final(self).sound() ==> final(self).scan().on_greatest(wanted),
    {
        let ghost whole = joint(self.blocks(), self.index());
        let mut left: u64 = u64::MAX;
        proof {
            if whole {
                db_iterator::lemma_ahead_bounded(self.index());
            }
        }
        while !self.data_valid()
            invariant
                self.kept(),
                self.in_step(),
                self.same_index(old(self)),
                whole == joint(self.blocks(), self.index()),
                self.sound() ==> wanted_upto(
                    self.blocks(),
                    self.index(),
                    place_of(self.index()),
                    wanted,
                ) && (self.data_iter matches Some(data) ==> data.scan().on_greatest(wanted)),
                old(self).first_failure() is Some ==> self.first_failure() is Some,
                self.sound() ==> db_iterator::behind(self.index()) <= left,
            decreases left,
        {
            self.save_status();
            if self.failure.is_some() {
                self.data_iter = None;
                return;
            }
            if !self.index_iter.valid() {
                self.data_iter = None;
                return;
            }
            let ghost earlier = self.index();
            let ghost inner = self.data_iter;
            let ghost sure = self.sound();
            proof {
                if sure {
                    db_iterator::lemma_ahead_positive(earlier);
                }
            }
            if left == 0 {
                self.data_iter = None;
                self.failure = Some(Status::corruption("TwoLevelIterator: endless index"));
                return;
            }
            left = left - 1;
            self.index_iter.prev();
            proof {
                if sure && self.index().good() {
                    lemma_previous_block(
                        self.blocks(),
                        earlier,
                        self.index(),
                        inner->0.scan(),
                        wanted,
                    );
                    db_iterator::lemma_behind_falls(earlier, self.index());
                }
            }
            self.init_data_block();
            self.data_to_last();
            proof {
                if self.sound() && self.data_iter is Some {
                    let data = self.data_iter->0.scan();
                    assert forall|key: Seq<u8>| #[trigger]
                        data.contents.contains_key(key) implies wanted(key) by {
                        assert(lies_behind(
                            self.blocks(),
                            self.index().contents,
                            self.index().key(),
                            key,
                        ));
                    }
                    assert(data.on_greatest(wanted));
                }
            }
        }
        proof {
            if self.sound() {
                lemma_greatest_of_all(
                    self.blocks(),
                    self.index(),
                    self.index().key(),
                    self.data_iter->0.scan(),
                    self.scan(),
                    wanted,
                );
            }
        }
    }
}

impl<O: DbIterator, F: BlockFunction> DbIterator for TwoLevelIterator<O, F> {
    closed spec fn wf(&self) -> bool {
        &&& self.kept()
        &&& self.in_step()
        &&& self.sound() && (self.data_iter matches Some(data)
            && data.scan().current is Some)
            ==> self.data_iter->0.scan().contents.contains_key(self.data_iter->0.scan().key())
    }

    closed spec fn scan(&self) -> Scan {
        Scan {
            contents: all_blocks(self.blocks(), self.index().contents),
            before: self.index().before,
            admits: self.index().admits,
            intact: joint(self.blocks(), self.index()),
            steady: readable(self.blocks(), self.block_function.sure(), self.index()),
            current: match self.data_iter {
                None => None,
                Some(data) => data.scan().current,
            },
            failure: self.first_failure(),
        }
    }

    fn valid(&self) -> (answer: bool) {
        self.data_valid()
    }

    fn seek_to_first(&mut self)
        ensures
            final(self).tells(),
    {
        let ghost wanted = |key: Seq<u8>| true;
        self.index_iter.seek_to_first();
        self.init_data_block();
        self.data_to_first();
        proof {
            if self.sound() {
                let index = self.index();
                if index.current is Some {
                    assert forall|other: Seq<u8>, key: Seq<u8>|
                        !((#[trigger] lies_behind(
                            self.blocks(),
                            index.contents,
                            other,
                            key,
                        )) && (index.before)(other, index.key())) by {
                        if lies_behind(self.blocks(), index.contents, other, key) && (
                        index.before)(other, index.key()) {
                            assert(index.contents.contains_key(other));
                            if other != index.key() {
                                assert((index.before)(index.key(), other));
                            }
                            db_iterator::lemma_order_asymmetric(
                                index.before,
                                index.admits,
                                other,
                                index.key(),
                            );
                        }
                    }
                }
                assert(wanted_from(self.blocks(), index, place_of(index), wanted));
                if self.data_iter is Some {
                    assert(self.data_iter->0.scan().on_least(wanted));
                }
            }
        }
        self.skip_empty_data_blocks_forward(Ghost(wanted));
    }

    fn seek_to_last(&mut self)
        ensures
            final(self).tells(),
    {
        let ghost wanted = |key: Seq<u8>| true;
        self.index_iter.seek_to_last();
        self.init_data_block();
        self.data_to_last();
        proof {
            if self.sound() {
                let index = self.index();
                if index.current is Some {
                    assert forall|other: Seq<u8>, key: Seq<u8>|
                        !((#[trigger] lies_behind(
                            self.blocks(),
                            index.contents,
                            other,
                            key,
                        )) && (index.before)(index.key(), other)) by {
                        if lies_behind(self.blocks(), index.contents, other, key) && (
                        index.before)(index.key(), other) {
                            assert(index.contents.contains_key(other));
                            if other != index.key() {
                                assert((index.before)(other, index.key()));
                            }
                            db_iterator::lemma_order_asymmetric(
                                index.before,
                                index.admits,
                                index.key(),
                                other,
                            );
                        }
                    }
                }
                assert(wanted_upto(self.blocks(), index, place_of(index), wanted));
                if self.data_iter is Some {
                    assert(self.data_iter->0.scan().on_greatest(wanted));
                }
            }
        }
        self.skip_empty_data_blocks_backward(Ghost(wanted));
    }

    #[verifier::spinoff_prover]
    fn seek(&mut self, target: &[u8])
        ensures
            final(self).tells(),
    {
        let ghost before = self.index().before;
        let ghost wanted = |key: Seq<u8>| !before(key, target@);
        self.index_iter.seek(target);
        self.init_data_block();
        match &mut self.data_iter {
            None => {},
            Some(data) => {
                data.seek(target);
            },
        }
        proof {
            if self.sound() {
                lemma_sought_block(self.blocks(), self.index(), target@, wanted);
                if self.data_iter is Some {
                    assert(self.data_iter->0.scan().on_least(wanted));
                }
            }
        }
        self.skip_empty_data_blocks_forward(Ghost(wanted));
    }

    #[verifier::spinoff_prover]
    fn next(&mut self)
        ensures
            final(self).tells(),
    {
        let ghost before = self.index().before;
        let ghost from = self.scan().key();
        let ghost wanted = |key: Seq<u8>| before(from, key);
        match &mut self.data_iter {
            None => {},
            Some(data) => {
                data.next();
            },
        }
        proof {
            if self.sound() {
                lemma_keys_behind(self.blocks(), self.index(), from, wanted);
                assert(self.data_iter->0.scan().on_least(wanted));
            }
        }
        self.skip_empty_data_blocks_forward(Ghost(wanted));
    }

    #[verifier::spinoff_prover]
    fn prev(&mut self)
        ensures
            final(self).tells(),
    {
        let ghost before = self.index().before;
        let ghost from = self.scan().key();
        let ghost wanted = |key: Seq<u8>| before(key, from);
        match &mut self.data_iter {
            None => {},
            Some(data) => {
                data.prev();
            },
        }
        proof {
            if self.sound() {
                lemma_keys_ahead(self.blocks(), self.index(), from, wanted);
                assert(self.data_iter->0.scan().on_greatest(wanted));
            }
        }
        self.skip_empty_data_blocks_backward(Ghost(wanted));
    }

    fn key(&self) -> (key: &[u8]) {
        match &self.data_iter {
            None => {
                assert(false);
                self.data_block_handle.as_slice()
            },
            Some(data) => data.key(),
        }
    }

    fn value(&self) -> (value: &[u8]) {
        match &self.data_iter {
            None => {
                assert(false);
                self.data_block_handle.as_slice()
            },
            Some(data) => data.value(),
        }
    }

    fn status(&self) -> (outcome: status::Result<()>) {
        match &self.failure {
            Some(error) => {
                return Err(error.clone());
            },
            None => {},
        }
        match self.index_iter.status() {
            Err(error) => {
                return Err(error);
            },
            Ok(_) => {},
        }
        match &self.data_iter {
            None => Ok(()),
            Some(data) => data.status(),
        }
    }
}

/// The block that the index names for a key: all in front is before the key, all
/// behind is not.
proof fn lemma_sought_block(
    function: Blocks,
    index: Scan,
    target: Seq<u8>,
    wanted: spec_fn(Seq<u8>) -> bool,
)
    requires
        joint(function, index),
        (index.admits)(target),
        index.at_or_after(target),
        forall|key: Seq<u8>| #[trigger] wanted(key) == !(index.before)(key, target),
    ensures
        wanted_from(function, index, place_of(index), wanted),
{
    assert forall|other: Seq<u8>, key: Seq<u8>|
        (#[trigger] lies_behind(function, index.contents, other, key)) && (index.current is Some
            ==> (index.before)(other, index.key())) implies !wanted(key) by {
        assert(index.contents.contains_key(other));
        if !(index.before)(other, target) {
            if index.current is Some {
                if other != index.key() {
                    assert((index.before)(index.key(), other));
                }
                db_iterator::lemma_order_asymmetric(
                    index.before,
                    index.admits,
                    other,
                    index.key(),
                );
            }
        }
        db_iterator::lemma_order_splits(index.before, index.admits, other, key, target);
    }
    if index.current is Some {
        let at = index.key();
        assert forall|other: Seq<u8>, key: Seq<u8>| #[trigger]
            lies_behind(function, index.contents, other, key) && (index.before)(
                at,
                other,
            ) implies wanted(key) by {
            assert(index.contents.contains_key(at));
            assert((index.before)(at, key));
            if (index.before)(key, target) {
                db_iterator::lemma_order_transitive(index.before, index.admits, at, key, target);
            }
        }
    }
}

/// Behind a key of the current block lie the blocks behind it, and none ahead.
proof fn lemma_keys_behind(
    function: Blocks,
    index: Scan,
    from: Seq<u8>,
    wanted: spec_fn(Seq<u8>) -> bool,
)
    requires
        joint(function, index),
        index.current is Some,
        lies_behind(function, index.contents, index.key(), from),
        forall|key: Seq<u8>| #[trigger] wanted(key) == (index.before)(from, key),
    ensures
        wanted_from(function, index, place_of(index), wanted),
{
    let at = index.key();
    assert(index.contents.contains_key(at));
    assert forall|other: Seq<u8>, key: Seq<u8>| #[trigger]
        lies_behind(function, index.contents, other, key) && (index.before)(
            other,
            at,
        ) implies !wanted(key) by {
        assert(index.contents.contains_key(other));
        assert((index.before)(other, from));
        if (index.before)(from, key) {
            db_iterator::lemma_order_transitive(index.before, index.admits, other, from, key);
        }
    }
    assert forall|other: Seq<u8>, key: Seq<u8>| #[trigger]
        lies_behind(function, index.contents, other, key) && (index.before)(
            at,
            other,
        ) implies wanted(key) by {
        assert((index.before)(at, key));
        db_iterator::lemma_order_splits(index.before, index.admits, at, from, key);
    }
}

/// Ahead of a key of the current block lie the blocks ahead of it, and none
/// behind.
proof fn lemma_keys_ahead(
    function: Blocks,
    index: Scan,
    from: Seq<u8>,
    wanted: spec_fn(Seq<u8>) -> bool,
)
    requires
        joint(function, index),
        index.current is Some,
        lies_behind(function, index.contents, index.key(), from),
        forall|key: Seq<u8>| #[trigger] wanted(key) == (index.before)(key, from),
    ensures
        wanted_upto(function, index, place_of(index), wanted),
{
    let at = index.key();
    assert(index.contents.contains_key(at));
    assert forall|other: Seq<u8>, key: Seq<u8>| #[trigger]
        lies_behind(function, index.contents, other, key) && (index.before)(
            at,
            other,
        ) implies !wanted(key) by {
        assert((index.before)(at, key));
        if (index.before)(key, from) {
            db_iterator::lemma_order_transitive(index.before, index.admits, at, key, from);
        }
    }
    assert forall|other: Seq<u8>, key: Seq<u8>| #[trigger]
        lies_behind(function, index.contents, other, key) && (index.before)(
            other,
            at,
        ) implies wanted(key) by {
        assert(index.contents.contains_key(other));
        assert((index.before)(other, from));
        db_iterator::lemma_order_splits(index.before, index.admits, other, key, from);
    }
}

} // verus!
