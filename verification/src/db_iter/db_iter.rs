//! Iterator over what a reader sees at a sequence number.

use vstd::prelude::*;

use crate::comparator;
use crate::comparator::Comparator;
use crate::db_iter::db_iterator;
use crate::db_iter::db_iterator::DbIterator;
use crate::db_iter::db_iterator::Scan;
use crate::db_iter::read_sampler;
use crate::db_iter::read_sampler::ReadSampler;
use crate::db_iter::user_view;
use crate::db_iter::user_view::Retreat;
use crate::db_iter::user_view::Sweep;
use crate::format::InternalKeyComparator;
use crate::format::ParsedInternalKey;
use crate::format::SequenceNumber;
use crate::format::ValueType;
use crate::format::READ_BYTES_PERIOD;
use crate::format::VALUE_TYPE_FOR_SEEK;
use crate::status;
use crate::status::Status;

verus! {

/// Which way an iterator runs. Forward, the inner iterator stands on the entry that
/// is current. In reverse, it stands right ahead of all entries of the current user
/// key.
#[derive(Debug, Copy, Clone, PartialEq, Eq, Structural)]
pub enum Direction {
    Forward,
    Reverse,
}

/// Shows the user keys of an iterator over internal keys, as a reader sees them at
/// a sequence number: entries that are newer are hidden, and so are entries that a
/// newer entry of the same user key shadows, and deletions.
pub struct DBIter<C: Comparator, I: DbIterator> {
    user_comparator: C,
    iter: I,
    sequence: SequenceNumber,
    direction: Direction,
    valid: bool,
    /// In reverse, the current user key. Forward, the user key up to which entries
    /// are skipped.
    saved_key: Vec<u8>,
    /// In reverse, the current value.
    saved_value: Vec<u8>,
    failure: Option<Status>,
    sampler: ReadSampler,
}

/// Whether an error is one that the iterator itself reports: a key below it is no internal
/// key, or the iterator below it does not come to an end.
pub open spec fn is_own_failure(error: Status) -> bool {
    error.says(status::Code::Corruption, "corrupted internal key in DBIter"@) || error.says(
        status::Code::Corruption,
        "DBIter: endless iterator"@,
    )
}

impl<C: Comparator, I: DbIterator> DBIter<C, I> {
    /// The order of the user keys.
    pub closed spec fn user_order(&self) -> C {
        self.user_comparator
    }

    /// The iterator over internal keys.
    pub closed spec fn inner(&self) -> Scan {
        self.iter.scan()
    }

    /// The sequence number of the reader.
    pub closed spec fn at_sequence(&self) -> nat {
        self.sequence as nat
    }

    /// Whether the iterator runs back.
    pub closed spec fn runs_back(&self) -> bool {
        self.direction == Direction::Reverse
    }

    /// What went wrong in the iterator itself, not in the one below it.
    pub closed spec fn own_failure(&self) -> Option<Status> {
        self.failure
    }

    /// What picks the keys that are read.
    pub closed spec fn read_sampler(&self) -> ReadSampler {
        self.sampler
    }

    spec fn whole(&self) -> bool {
        self.inner().intact && user_view::internal_row(self.user_comparator, self.inner())
    }

    /// The entries are sound, and nothing went wrong so far as they were read.
    spec fn sound(&self) -> bool {
        self.whole() && self.inner().failure is None
    }

    /// The entries are sound, and can always be read.
    spec fn safe(&self) -> bool {
        self.whole() && self.inner().steady
    }

    /// Where the iterator stands nowhere, either the entries are at their end or what went
    /// wrong is told.
    pub open spec fn tells(&self) -> bool {
        self.scan().current is None ==> self.inner().current is None || self.scan().failure is Some
    }

    /// What holds between and during moves.
    spec fn kept(&self) -> bool {
        &&& self.iter.wf()
        &&& self.sequence <= crate::format::MAX_SEQUENCE_NUMBER
        &&& self.sampler.wf()
        &&& self.safe() ==> self.failure is None && self.inner().failure is None
        &&& self.failure matches Some(error) ==> is_own_failure(error)
    }

    /// Only the position differs.
    spec fn same_inner(&self, other: &Self) -> bool {
        &&& self.user_comparator == other.user_comparator
        &&& self.sequence == other.sequence
        &&& self.inner().same_source(other.inner())
    }

    /// The current entry is one that is shown.
    spec fn placed(&self) -> bool {
        let contents = self.inner().contents;
        let sequence = self.sequence as nat;
        self.valid ==> match self.direction {
            Direction::Forward => {
                &&& self.inner().current is Some
                &&& self.inner().key().len() >= 8
                &&& self.user_comparator.admits(user_view::user_of(self.inner().key()))
                &&& self.sound() ==> user_view::shown(
                    self.user_comparator,
                    contents,
                    sequence,
                    self.inner().key(),
                ) && contents[self.inner().key()] == self.inner().value()
            },
            Direction::Reverse => {
                &&& self.user_comparator.admits(self.saved_key@)
                &&& self.sound() ==> self.right_ahead(self.saved_key@)
            },
        }
    }

    /// The inner iterator stands on the last entry with a smaller user key, but for
    /// entries that are not seen.
    spec fn right_ahead(&self, user_key: Seq<u8>) -> bool {
        let contents = self.inner().contents;
        let sequence = self.sequence as nat;
        &&& self.inner().current matches Some((at, value)) ==> contents.contains_key(at)
            && contents[at] == value && self.user_comparator.less(user_view::user_of(at), user_key)
        &&& forall|x: Seq<u8>| #[trigger]
            user_view::visible(contents, sequence, x) ==> user_view::is_upto(
                self.user_comparator,
                x,
                place_of(self.inner()),
            ) == self.user_comparator.less(user_view::user_of(x), user_key)
    }

    pub fn new(user_comparator: C, iter: I, sequence: SequenceNumber) -> (view: Self)
        requires
            iter.wf(),
            sequence <= crate::format::MAX_SEQUENCE_NUMBER,
        ensures
            view.wf(),
            view.user_order() == user_comparator,
            view.inner() == iter.scan(),
            view.at_sequence() == sequence,
            view.scan().current is None,
            view.scan().failure == iter.scan().failure,
            view.own_failure() is None,
            view.read_sampler().picked() == Seq::<Seq<u8>>::empty(),
            view.read_sampler().stretch() == READ_BYTES_PERIOD,
            view.read_sampler().left() == READ_BYTES_PERIOD,
            !view.read_sampler().is_enabled(),
    {
        // An iterator over sound entries that can always be read tells no failure.
        let _ = iter.status();
        DBIter {
            user_comparator,
            iter,
            sequence,
            direction: Direction::Forward,
            valid: false,
            saved_key: Vec::new(),
            saved_value: Vec::new(),
            failure: None,
            sampler: ReadSampler::new(READ_BYTES_PERIOD as i64),
        }
    }

    /// What the iterator runs over.
    pub proof fn lemma_scan(&self)
        ensures
            self.scan().contents == user_view::user_view(
                self.user_order(),
                self.inner().contents,
                self.at_sequence(),
            ),
            self.scan().before == comparator::order_of(self.user_order()),
            self.scan().intact == (self.inner().intact && user_view::internal_row(
                self.user_order(),
                self.inner(),
            )),
            self.scan().steady == self.inner().steady,
            self.scan().failure == if self.own_failure() is Some {
                self.own_failure()
            } else {
                self.inner().failure
            },
            self.wf() ==> (self.own_failure() matches Some(error) ==> is_own_failure(error)),
            forall|target: Seq<u8>| #[trigger] (self.scan().admits)(target)
                <==> self.user_order().admits(target) && (self.inner().admits)(
                    crate::format::internal_key_bytes(
                        target,
                        self.at_sequence(),
                        VALUE_TYPE_FOR_SEEK,
                    ),
                ),
    {
    }

    /// Has the keys that are read picked, one for each period of bytes.
    pub fn set_sampler(&mut self)
        requires
            old(self).wf(),
        ensures
            final(self).wf(),
            final(self).scan() == old(self).scan(),
            final(self).read_sampler().is_enabled(),
            final(self).read_sampler().picked() == old(self).read_sampler().picked(),
    {
        self.sampler.enable();
    }

    /// Hands out the keys that were picked.
    pub fn take_samples(&mut self) -> (samples: Vec<Vec<u8>>)
        requires
            old(self).wf(),
        ensures
            final(self).wf(),
            final(self).scan() == old(self).scan(),
            crate::db_iter::read_sampler::views(samples@) == old(self).read_sampler().picked(),
            final(self).read_sampler().picked() == Seq::<Seq<u8>>::empty(),
    {
        self.sampler.take()
    }

    /// Changes how many bytes lie between two keys that are picked.
    pub fn set_read_bytes_period(&mut self, period: i64)
        requires
            old(self).wf(),
        ensures
            final(self).wf(),
            final(self).scan() == old(self).scan(),
            final(self).read_sampler().stretch() == if period < 1 {
                1
            } else {
                period as int
            },
            final(self).read_sampler().left() == final(self).read_sampler().stretch(),
            final(self).read_sampler().picked() == old(self).read_sampler().picked(),
            final(self).read_sampler().is_enabled() == old(self).read_sampler().is_enabled(),
    {
        self.sampler.set_period(period);
    }

    /// Reads the internal key on which the inner iterator stands.
    fn parse_current(&mut self) -> (parsed: Option<ParsedInternalKey>)
        requires
            old(self).kept(),
            old(self).inner().current is Some,
            old(self).sound() ==> old(self).inner().contents.contains_key(
                old(self).inner().key(),
            ),
        ensures
            final(self).kept(),
            *final(self) == (DBIter {
                sampler: final(self).sampler,
                failure: final(self).failure,
                valid: final(self).valid,
                ..*old(self)
            }),
            old(self).sound() ==> parsed is Some,
            read_sampler::has_counted(
                old(self).sampler,
                final(self).sampler,
                seq![old(self).inner().current->0],
            ),
            match parsed {
                None => !final(self).valid && final(self).failure is Some,
                Some(parts) => {
                    &&& final(self).valid == old(self).valid
                    &&& final(self).failure == old(self).failure
                    &&& crate::format::parsed(old(self).inner().key()) == Some(
                        (parts.user_key@, parts.sequence as nat, parts.value_type),
                    )
                    &&& final(self).user_comparator.admits(parts.user_key@)
                    &&& parts.user_key@ == user_view::user_of(old(self).inner().key())
                },
            },
    {
        self.sampler.charge(self.iter.key(), self.iter.value());
        assert((self.inner().key(), self.inner().value()) == self.inner().current->0);
        match crate::format::parse_internal_key(self.iter.key()) {
            Some(parts) => {
                if self.user_comparator.accepts(parts.user_key.as_slice()) {
                    return Some(parts);
                }
            },
            None => {},
        }
        self.failure = Some(Status::corruption("corrupted internal key in DBIter"));
        self.valid = false;
        None
    }

    /// Goes on to the first entry that is shown and not skipped.
    #[verifier::spinoff_prover]
    #[verifier::rlimit(60)]
    fn find_next_user_entry(&mut self, skip: bool, Ghost(start): Ghost<Sweep>) -> (read: Ghost<
        Seq<Scan>,
    >)
        requires
            old(self).kept(),
            old(self).direction == Direction::Forward,
            old(self).inner().current is Some,
            skip ==> old(self).user_comparator.admits(old(self).saved_key@),
            old(self).sound() ==> {
                &&& old(self).inner().contents.contains_key(old(self).inner().key())
                &&& old(self).inner().contents[old(self).inner().key()] == old(
                    self).inner().value()
                &&& start.place == Some(old(self).inner().key())
                &&& start.skipping == skip
                &&& skip ==> start.saved == old(self).saved_key@
                &&& start.sound(
                    old(self).user_comparator,
                    old(self).inner().contents,
                    old(self).sequence as nat,
                )
            },
        ensures
            final(self).wf(),
            final(self).same_inner(old(self)),
            final(self).tells(),
            final(self).scan().keeps(old(self).scan()),
            final(self).scan().good() ==> final(self).scan().on_least(start.wanted),
            was_read(*old(self), *final(self), old(self).inner(), read@, true),
    {
        let ghost whole = self.whole();
        let ghost user = self.user_comparator;
        let ghost sequence = self.sequence as nat;
        let ghost mut sweep = start;
        let ghost mut stands: Seq<Scan> = Seq::empty();
        proof {
            read_sampler::lemma_counted_none(self.sampler);
            assert(entries_at(stands) =~= Seq::empty());
        }
        let mut skipping = skip;
        let mut left: u64 = u64::MAX;
        proof {
            if whole {
                db_iterator::lemma_ahead_bounded(self.inner());
            }
        }
        loop
            invariant
                self.kept(),
                self.same_inner(old(self)),
                self.direction == Direction::Forward,
                self.inner().current is Some,
                whole == self.whole(),
                whole == old(self).whole(),
                user == self.user_comparator,
                sequence == self.sequence as nat,
                skipping ==> user.admits(self.saved_key@),
                sweep.wanted == start.wanted,
                read_sampler::has_counted(old(self).sampler, self.sampler, entries_at(stands)),
                old(self).inner().current is Some,
                self.sound() ==> led_to(old(self).inner(), stands, self.inner(), true),
                self.scan().keeps(old(self).scan()),
                self.sound() ==> {
                    &&& self.inner().contents.contains_key(self.inner().key())
                    &&& self.inner().contents[self.inner().key()] == self.inner().value()
                    &&& sweep.place == Some(self.inner().key())
                    &&& sweep.skipping == skipping
                    &&& skipping ==> sweep.saved == self.saved_key@
                    &&& sweep.sound(user, self.inner().contents, sequence)
                    &&& db_iterator::ahead(self.inner()) <= left
                },
            decreases left,
        {
            let ghost here = self.inner().key();
            let ghost earlier_sampler = self.sampler;
            let ghost stood = stands;
            proof {
                stands = stands.push(self.inner());
            }
            let parsed = self.parse_current();
            proof {
                read_sampler::lemma_counted_more(
                    old(self).sampler,
                    earlier_sampler,
                    self.sampler,
                    entries_at(stood),
                    self.inner().current->0,
                );
                assert(entries_at(stands) =~= entries_at(stood).push(self.inner().current->0));
                if self.sound() {
                    lemma_trail_grows(old(self).inner(), stood, self.inner(), true);
                }
            }
            let parts = match parsed {
                None => {
                    return Ghost(stands);
                },
                Some(parts) => parts,
            };
            if parts.sequence <= self.sequence {
                match parts.value_type {
                    ValueType::Deletion => {
                        proof {
                            if self.sound() {
                                user_view::lemma_sweep_delete(
                                    user,
                                    self.inner(),
                                    sequence,
                                    sweep,
                                    here,
                                );
                                user.less_irreflexive(user_view::user_of(here));
                                sweep = Sweep {
                                    skipping: true,
                                    saved: user_view::user_of(here),
                                    ..sweep
                                };
                            }
                        }
                        self.saved_key = parts.user_key;
                        skipping = true;
                    },
                    ValueType::Value => {
                        let shadowed = skipping && !comparator::precedes(
                            &self.user_comparator,
                            self.saved_key.as_slice(),
                            parts.user_key.as_slice(),
                        );
                        if !shadowed {
                            self.valid = true;
                            self.saved_key.clear();
                            proof {
                                if self.sound() {
                                    user_view::lemma_sweep_found(
                                        user,
                                        self.inner(),
                                        sequence,
                                        sweep,
                                        here,
                                        self.scan(),
                                    );
                                }
                            }
                            return Ghost(stands);
                        }
                    },
                }
            }
            let ghost earlier = self.inner();
            proof {
                if self.sound() {
                    db_iterator::lemma_ahead_positive(earlier);
                }
            }
            if left == 0 {
                self.failure = Some(Status::corruption("DBIter: endless iterator"));
                self.valid = false;
                return Ghost(stands);
            }
            left = left - 1;
            self.iter.next();
            proof {
                if self.sound() {
                    user_view::lemma_sweep_step(user, earlier, self.inner(), sequence, sweep);
                    db_iterator::lemma_ahead_falls(earlier, self.inner());
                    sweep = Sweep { place: place_of(self.inner()), ..sweep };
                }
            }
            if !self.iter.valid() {
                self.saved_key.clear();
                self.valid = false;
                proof {
                    if self.sound() {
                        user_view::lemma_sweep_end(
                            user,
                            self.inner(),
                            sequence,
                            sweep,
                            self.scan(),
                        );
                    }
                }
                return Ghost(stands);
            }
        }
    }

    /// Goes back to the last user key that is shown.
    #[verifier::spinoff_prover]
    #[verifier::rlimit(60)]
    fn find_prev_user_entry(&mut self, Ghost(start): Ghost<Retreat>) -> (read: Ghost<Seq<Scan>>)
        requires
            old(self).kept(),
            old(self).direction == Direction::Reverse,
            old(self).sound() ==> {
                &&& old(self).inner().current is Some ==> old(self).inner().contents.contains_key(
                    old(self).inner().key(),
                ) && old(self).inner().contents[old(self).inner().key()] == old(
                    self).inner().value()
                &&& start.place == place_of(old(self).inner())
                &&& start.held is None
                &&& start.sound(
                    old(self).user_comparator,
                    old(self).inner().contents,
                    old(self).sequence as nat,
                )
                &&& falls(
                    old(self).user_comparator,
                    old(self).inner().contents,
                    old(self).sequence as nat,
                    start.wanted,
                )
            },
        ensures
            final(self).wf(),
            final(self).same_inner(old(self)),
            final(self).tells(),
            final(self).scan().keeps(old(self).scan()),
            final(self).scan().good() ==> final(self).scan().on_greatest(start.wanted),
            was_read(*old(self), *final(self), old(self).inner(), read@, false),
    {
        let ghost whole = self.whole();
        let ghost user = self.user_comparator;
        let ghost sequence = self.sequence as nat;
        let ghost mut retreat = start;
        let ghost mut stands: Seq<Scan> = Seq::empty();
        proof {
            read_sampler::lemma_counted_none(self.sampler);
            assert(entries_at(stands) =~= Seq::empty());
        }
        let mut value_type = ValueType::Deletion;
        let mut left: u64 = u64::MAX;
        proof {
            if whole {
                db_iterator::lemma_ahead_bounded(self.inner());
            }
        }
        let mut going = self.iter.valid();
        while going
            invariant
                self.kept(),
                self.same_inner(old(self)),
                self.direction == Direction::Reverse,
                going ==> self.inner().current is Some,
                !going ==> self.inner().current is None || value_type == ValueType::Value,
                whole == self.whole(),
                whole == old(self).whole(),
                user == self.user_comparator,
                sequence == self.sequence as nat,
                value_type == ValueType::Value ==> user.admits(self.saved_key@),
                retreat.wanted == start.wanted,
                read_sampler::has_counted(old(self).sampler, self.sampler, entries_at(stands)),
                self.sound() && going ==> led_to(old(self).inner(), stands, self.inner(), false),
                self.sound() && !going ==> is_trail(
                    old(self).inner(),
                    stands,
                    self.inner(),
                    false,
                ),
                self.scan().keeps(old(self).scan()),
                self.sound() ==> {
                    &&& self.inner().current is Some ==> self.inner().contents.contains_key(
                        self.inner().key(),
                    ) && self.inner().contents[self.inner().key()] == self.inner().value()
                    &&& retreat.place == place_of(self.inner())
                    &&& retreat.sound(user, self.inner().contents, sequence)
                    &&& falls(user, self.inner().contents, sequence, retreat.wanted)
                    &&& retreat.held is None ==> value_type == ValueType::Deletion
                    &&& retreat.held matches Some(held) ==> value_type == (crate::format::parsed(
                        held,
                    )->0).2 && (value_type == ValueType::Value ==> self.saved_key@
                        == user_view::user_of(held) && self.saved_value@
                        == self.inner().contents[held])
                    &&& !going ==> (self.inner().current is None || (value_type
                        == ValueType::Value && user.less(
                        user_view::user_of(self.inner().key()),
                        self.saved_key@,
                    )))
                    &&& db_iterator::behind(self.inner()) <= left
                },
            decreases left, (if going {
                1int
            } else {
                0
            }),
        {
            let ghost here = self.inner().key();
            let ghost earlier_sampler = self.sampler;
            let ghost stood = stands;
            proof {
                stands = stands.push(self.inner());
            }
            let parsed = self.parse_current();
            proof {
                read_sampler::lemma_counted_more(
                    old(self).sampler,
                    earlier_sampler,
                    self.sampler,
                    entries_at(stood),
                    self.inner().current->0,
                );
                assert(entries_at(stands) =~= entries_at(stood).push(self.inner().current->0));
                if self.sound() {
                    lemma_trail_grows(old(self).inner(), stood, self.inner(), false);
                }
            }
            let parts = match parsed {
                None => {
                    return Ghost(stands);
                },
                Some(parts) => parts,
            };
            let mut found = false;
            if parts.sequence <= self.sequence {
                if value_type != ValueType::Deletion && comparator::precedes(
                    &self.user_comparator,
                    parts.user_key.as_slice(),
                    self.saved_key.as_slice(),
                ) {
                    found = true;
                } else {
                    value_type = parts.value_type;
                    if value_type == ValueType::Deletion {
                        self.saved_key.clear();
                        self.saved_value.clear();
                    } else {
                        self.saved_key = parts.user_key;
                        self.saved_value = vstd::slice::slice_to_vec(self.iter.value());
                    }
                }
            }
            if found {
                going = false;
            } else {
                let ghost earlier = self.inner();
                proof {
                    if self.sound() {
                        db_iterator::lemma_ahead_positive(earlier);
                    }
                }
                if left == 0 {
                    self.failure = Some(Status::corruption("DBIter: endless iterator"));
                    self.valid = false;
                    return Ghost(stands);
                }
                left = left - 1;
                self.iter.prev();
                proof {
                    if self.sound() {
                        user_view::lemma_retreat_step(
                            user,
                            earlier,
                            self.inner(),
                            sequence,
                            retreat,
                        );
                        db_iterator::lemma_behind_falls(earlier, self.inner());
                        retreat = Retreat {
                            place: place_of(self.inner()),
                            held: if user_view::visible(earlier.contents, sequence, here) {
                                Some(here)
                            } else {
                                retreat.held
                            },
                            ..retreat
                        };
                    }
                }
                going = self.iter.valid();
            }
        }
        if value_type == ValueType::Deletion {
            self.valid = false;
            self.saved_key.clear();
            self.saved_value.clear();
            self.direction = Direction::Forward;
            proof {
                if self.sound() {
                    user_view::lemma_retreat_end(
                        user,
                        self.inner(),
                        sequence,
                        retreat,
                        self.scan(),
                    );
                }
            }
        } else {
            self.valid = true;
            proof {
                if self.sound() {
                    user_view::lemma_retreat_found(
                        user,
                        self.inner(),
                        sequence,
                        retreat,
                        self.scan(),
                    );
                    self.lemma_right_ahead(retreat);
                }
            }
        }
        Ghost(stands)
    }

    /// Where a sweep back ended, the inner iterator stands right ahead of the user
    /// key that was found.
    proof fn lemma_right_ahead(&self, retreat: Retreat)
        requires
            self.whole(),
            retreat.place == place_of(self.inner()),
            retreat.held is Some,
            retreat.sound(
                self.user_comparator,
                self.inner().contents,
                self.sequence as nat,
            ),
            self.inner().current is Some ==> self.inner().contents.contains_key(self.inner().key())
                && self.inner().contents[self.inner().key()] == self.inner().value()
                && self.user_comparator.less(
                user_view::user_of(self.inner().key()),
                user_view::user_of(retreat.held->0),
            ),
            falls(self.user_comparator, self.inner().contents, self.sequence as nat, retreat.wanted),
        ensures
            self.right_ahead(user_view::user_of(retreat.held->0)),
    {
        let user = self.user_comparator;
        let contents = self.inner().contents;
        let sequence = self.sequence as nat;
        let held = retreat.held->0;
        let bound = user_view::user_of(held);
        assert forall|x: Seq<u8>| #[trigger]
            user_view::visible(contents, sequence, x) implies user_view::is_upto(
            user,
            x,
            place_of(self.inner()),
        ) == user.less(user_view::user_of(x), bound) by {
            let u = user_view::user_of(x);
            assert(user_view::visible(contents, sequence, held));
            assert(contents.contains_key(x));
            assert(contents.contains_key(held));
            if user_view::is_upto(user, x, retreat.place) {
                let at = self.inner().key();
                user_view::lemma_internal_less(user, at, x);
                if !user.less(u, bound) {
                    user.less_splits(user_view::user_of(at), u, bound);
                }
            } else if user.less(u, bound) {
                user_view::lemma_internal_less(user, x, held);
            }
        }
    }
}

/// The entries on which an iterator stood.
pub open spec fn entries_at(stands: Seq<Scan>) -> Seq<db_iterator::Pair> {
    Seq::new(stands.len(), |k: int| stands[k].current->0)
}

/// A step of an iterator, on or back.
pub open spec fn moves_to(earlier: Scan, later: Scan, forward: bool) -> bool {
    if forward {
        later.after(earlier.key())
    } else {
        later.ahead_of(earlier.key())
    }
}

/// The step behind a stand.
pub open spec fn stand_moves(stands: Seq<Scan>, k: int, forward: bool) -> bool {
    moves_to(stands[k], stands[k + 1], forward)
}

/// Whether an iterator stood on entries one after the other, from where it stood first to
/// where it stands now: on the last of them, or nowhere, behind all.
pub open spec fn is_trail(from: Scan, stands: Seq<Scan>, to: Scan, forward: bool) -> bool {
    if from.current is None {
        stands.len() == 0 && to == from
    } else {
        &&& stands.len() > 0
        &&& stands[0] == from
        &&& forall|k: int| 0 <= k < stands.len() ==> (#[trigger] stands[k]).current is Some
        &&& forall|k: int| 0 <= k < stands.len() - 1 ==> #[trigger] stand_moves(stands, k, forward)
        &&& to == stands.last() || (to.current is None && moves_to(stands.last(), to, forward))
    }
}

/// Whether the entries that were read from one state to another, as the inner iterator ran on
/// or back from `from`, were counted: each on which it stood, and no others.
pub open spec fn was_read<C: Comparator, I: DbIterator>(
    before: DBIter<C, I>,
    after: DBIter<C, I>,
    from: Scan,
    stands: Seq<Scan>,
    forward: bool,
) -> bool {
    &&& read_sampler::has_counted(
        before.read_sampler(),
        after.read_sampler(),
        entries_at(stands),
    )
    &&& after.scan().good() ==> is_trail(from, stands, after.inner(), forward)
}

/// Whether a trail led to where an iterator stands, on an entry that is not counted yet.
spec fn led_to(from: Scan, stands: Seq<Scan>, now: Scan, forward: bool) -> bool {
    &&& now.current is Some
    &&& forall|k: int| 0 <= k < stands.len() ==> (#[trigger] stands[k]).current is Some
    &&& forall|k: int| 0 <= k < stands.len() - 1 ==> #[trigger] stand_moves(stands, k, forward)
    &&& if stands.len() == 0 {
        now == from
    } else {
        stands[0] == from && moves_to(stands.last(), now, forward)
    }
}

/// A trail goes on with where it led to.
proof fn lemma_trail_grows(from: Scan, stands: Seq<Scan>, now: Scan, forward: bool)
    requires
        led_to(from, stands, now, forward),
    ensures
        is_trail(from, stands.push(now), now, forward),
{
    let more = stands.push(now);
    assert forall|k: int| 0 <= k < more.len() - 1 implies #[trigger] stand_moves(
        more,
        k,
        forward,
    ) by {
        if k < stands.len() - 1 {
            assert(stand_moves(stands, k, forward));
        }
    }
}

/// What is ahead of a wanted user key is wanted too.
spec fn falls<C: Comparator>(
    user: C,
    contents: Map<Seq<u8>, Seq<u8>>,
    sequence: nat,
    wanted: spec_fn(Seq<u8>) -> bool,
) -> bool {
    forall|x: Seq<u8>, y: Seq<u8>|
        #![trigger user_view::visible(contents, sequence, x), user_view::visible(contents, sequence, y)]
        user_view::visible(contents, sequence, x) && user_view::visible(contents, sequence, y)
            && wanted(user_view::user_of(y)) && user.less(
            user_view::user_of(x),
            user_view::user_of(y),
        ) ==> wanted(user_view::user_of(x))
}

/// The key on which a scan stands.
pub open spec fn place_of(scan: Scan) -> Option<Seq<u8>> {
    match scan.current {
        None => None,
        Some((key, _)) => Some(key),
    }
}

impl<C: Comparator, I: DbIterator> DbIterator for DBIter<C, I> {
    closed spec fn wf(&self) -> bool {
        self.kept() && self.placed()
    }

    closed spec fn scan(&self) -> Scan {
        Scan {
            contents: user_view::user_view(
                self.user_comparator,
                self.inner().contents,
                self.sequence as nat,
            ),
            before: comparator::order_of(self.user_comparator),
            admits: |target: Seq<u8>|
                self.user_comparator.admits(target) && (self.inner().admits)(
                    crate::format::internal_key_bytes(
                        target,
                        self.sequence as nat,
                        VALUE_TYPE_FOR_SEEK,
                    ),
                ),
            intact: self.whole(),
            steady: self.inner().steady,
            current: if !self.valid {
                None
            } else {
                match self.direction {
                    Direction::Forward => Some(
                        (user_view::user_of(self.inner().key()), self.inner().value()),
                    ),
                    Direction::Reverse => Some((self.saved_key@, self.saved_value@)),
                }
            },
            failure: if self.failure is Some {
                self.failure
            } else {
                self.inner().failure
            },
        }
    }

    fn valid(&self) -> (answer: bool) {
        self.valid
    }

    fn seek_to_first(&mut self)
        ensures
            final(self).tells(),
            final(self).user_order() == old(self).user_order(),
            final(self).at_sequence() == old(self).at_sequence(),
            final(self).inner().same_source(old(self).inner()),
            exists|from: Scan, stands: Seq<Scan>| #[trigger]
                was_read(*old(self), *final(self), from, stands, true) && (final(
                    self).scan().good() ==> from.at_first() && from.same_source(
                    old(self).inner(),
                )),
    {
        self.direction = Direction::Forward;
        self.saved_value.clear();
        self.valid = false;
        self.iter.seek_to_first();
        let ghost sweep = Sweep {
            place: place_of(self.inner()),
            skipping: false,
            saved: Seq::empty(),
            out: |u: Seq<u8>| false,
            wanted: |u: Seq<u8>| true,
        };
        proof {
            lemma_admits_kept(old(self), self);
            if self.sound() {
                lemma_start_first(self.user_comparator, self.inner(), self.sequence as nat, sweep);
            }
        }
        let ghost from = self.inner();
        let ghost mut stands: Seq<Scan> = Seq::empty();
        proof {
            read_sampler::lemma_counted_none(self.sampler);
            assert(entries_at(stands) =~= Seq::empty());
        }
        if self.iter.valid() {
            let Ghost(read) = self.find_next_user_entry(false, Ghost(sweep));
            proof {
                stands = read;
            }
        } else {
            proof {
                if self.sound() {
                    user_view::lemma_sweep_end(
                        self.user_comparator,
                        self.inner(),
                        self.sequence as nat,
                        sweep,
                        self.scan(),
                    );
                }
            }
        }
        proof {
            lemma_admits_kept(old(self), self);
            assert(was_read(*old(self), *self, from, stands, true));
        }
    }

    fn seek_to_last(&mut self)
        ensures
            final(self).tells(),
            final(self).user_order() == old(self).user_order(),
            final(self).at_sequence() == old(self).at_sequence(),
            final(self).inner().same_source(old(self).inner()),
            exists|from: Scan, stands: Seq<Scan>| #[trigger]
                was_read(*old(self), *final(self), from, stands, false) && (final(
                    self).scan().good() ==> from.at_last() && from.same_source(
                    old(self).inner(),
                )),
    {
        self.direction = Direction::Reverse;
        self.saved_value.clear();
        self.valid = false;
        self.iter.seek_to_last();
        let ghost retreat = Retreat {
            place: place_of(self.inner()),
            held: None,
            wanted: |u: Seq<u8>| true,
        };
        proof {
            if self.sound() {
                lemma_start_last(self.user_comparator, self.inner(), self.sequence as nat, retreat);
            }
        }
        let ghost begun = self.inner();
        let Ghost(stands) = self.find_prev_user_entry(Ghost(retreat));
        proof {
            lemma_admits_kept(old(self), self);
            assert(was_read(*old(self), *self, begun, stands, false));
        }
    }

    fn seek(&mut self, target: &[u8])
        ensures
            final(self).tells(),
            final(self).user_order() == old(self).user_order(),
            final(self).at_sequence() == old(self).at_sequence(),
            final(self).inner().same_source(old(self).inner()),
            exists|from: Scan, stands: Seq<Scan>| #[trigger]
                was_read(*old(self), *final(self), from, stands, true) && (final(
                    self).scan().good() ==> from.at_or_after(
                    crate::format::internal_key_bytes(
                        target@,
                        old(self).at_sequence(),
                        VALUE_TYPE_FOR_SEEK,
                    ),
                ) && from.same_source(old(self).inner())),
    {
        self.direction = Direction::Forward;
        self.saved_value.clear();
        self.saved_key.clear();
        self.valid = false;
        let parts = ParsedInternalKey::new(target, self.sequence, VALUE_TYPE_FOR_SEEK);
        let mut internal: Vec<u8> = Vec::new();
        crate::format::append_internal_key(&mut internal, &parts);
        let ghost user = self.user_comparator;
        proof {
            assert(internal@ =~= crate::format::internal_key_bytes(
                target@,
                self.sequence as nat,
                VALUE_TYPE_FOR_SEEK,
            ));
        }
        self.iter.seek(internal.as_slice());
        let ghost sweep = Sweep {
            place: place_of(self.inner()),
            skipping: false,
            saved: Seq::empty(),
            out: |u: Seq<u8>| user.less(u, target@),
            wanted: |u: Seq<u8>| !user.less(u, target@),
        };
        proof {
            if self.sound() {
                lemma_start_seek(user, self.inner(), self.sequence as nat, target@, sweep);
            }
        }
        let ghost from = self.inner();
        let ghost mut stands: Seq<Scan> = Seq::empty();
        proof {
            read_sampler::lemma_counted_none(self.sampler);
            assert(entries_at(stands) =~= Seq::empty());
        }
        if self.iter.valid() {
            let Ghost(read) = self.find_next_user_entry(false, Ghost(sweep));
            proof {
                stands = read;
            }
        } else {
            proof {
                if self.sound() {
                    user_view::lemma_sweep_end(
                        user,
                        self.inner(),
                        self.sequence as nat,
                        sweep,
                        self.scan(),
                    );
                }
            }
        }
        proof {
            lemma_admits_kept(old(self), self);
            assert(was_read(*old(self), *self, from, stands, true));
        }
    }

    #[verifier::spinoff_prover]
    fn next(&mut self)
        ensures
            final(self).tells(),
            final(self).user_order() == old(self).user_order(),
            final(self).at_sequence() == old(self).at_sequence(),
            final(self).inner().same_source(old(self).inner()),
            exists|from: Scan, stands: Seq<Scan>| #[trigger]
                was_read(*old(self), *final(self), from, stands, true) && (final(
                    self).scan().good() ==> from.same_source(old(self).inner()) && if !old(
                    self).runs_back() {
                    from == old(self).inner()
                } else if old(self).inner().current is None {
                    from.at_first()
                } else {
                    from.after(old(self).inner().key())
                }),
    {
        let ghost user = self.user_comparator;
        let ghost from = self.scan().key();
        let ghost sequence = self.sequence as nat;
        if self.direction == Direction::Reverse {
            self.direction = Direction::Forward;
            self.valid = false;
            if !self.iter.valid() {
                self.iter.seek_to_first();
            } else {
                self.iter.next();
            }
        } else {
            let user_key = vstd::slice::slice_to_vec(
                crate::format::required_user_key(self.iter.key()),
            );
            self.saved_key = user_key;
            self.valid = false;
        }
        let ghost sweep = Sweep {
            place: place_of(self.inner()),
            skipping: true,
            saved: from,
            out: |u: Seq<u8>| false,
            wanted: |u: Seq<u8>| user.less(from, u),
        };
        proof {
            if self.sound() {
                if old(self).direction == Direction::Reverse {
                    lemma_start_turned(
                        user,
                        old(self).inner(),
                        self.inner(),
                        sequence,
                        from,
                        sweep,
                    );
                } else {
                    lemma_start_next(user, self.inner(), sequence, sweep);
                }
            }
        }
        let ghost begun = self.inner();
        let ghost mut stands: Seq<Scan> = Seq::empty();
        proof {
            read_sampler::lemma_counted_none(self.sampler);
            assert(entries_at(stands) =~= Seq::empty());
        }
        if self.iter.valid() {
            let Ghost(read) = self.find_next_user_entry(true, Ghost(sweep));
            proof {
                stands = read;
            }
        } else {
            self.saved_key.clear();
            proof {
                if self.sound() {
                    user_view::lemma_sweep_end(
                        user,
                        self.inner(),
                        sequence,
                        sweep,
                        self.scan(),
                    );
                }
            }
        }
        proof {
            lemma_admits_kept(old(self), self);
            assert(was_read(*old(self), *self, begun, stands, true));
        }
    }

    #[verifier::spinoff_prover]
    #[verifier::rlimit(40)]
    fn prev(&mut self)
        ensures
            final(self).tells(),
            final(self).user_order() == old(self).user_order(),
            final(self).at_sequence() == old(self).at_sequence(),
            final(self).inner().same_source(old(self).inner()),
            exists|from: Scan, stands: Seq<Scan>| #[trigger]
                was_read(*old(self), *final(self), from, stands, false) && (final(
                    self).scan().good() ==> from.same_source(old(self).inner()) && (old(
                    self).runs_back() ==> from == old(self).inner())),
    {
        let ghost user = self.user_comparator;
        let ghost from = self.scan().key();
        let ghost sequence = self.sequence as nat;
        if self.direction == Direction::Forward {
            if !self.back_out() {
                proof {
                    lemma_admits_kept(old(self), self);
                    let none = Seq::<Scan>::empty();
                    read_sampler::lemma_counted_none(self.sampler);
                    assert(entries_at(none) =~= Seq::empty());
                    assert(was_read(*old(self), *self, self.inner(), none, false));
                }
                return;
            }
        }
        self.valid = false;
        self.direction = Direction::Reverse;
        let ghost retreat = Retreat {
            place: place_of(self.inner()),
            held: None,
            wanted: |u: Seq<u8>| user.less(u, from),
        };
        proof {
            if self.sound() {
                lemma_start_prev(user, self.inner(), sequence, from, retreat);
            }
        }
        let ghost begun = self.inner();
        let Ghost(stands) = self.find_prev_user_entry(Ghost(retreat));
        proof {
            lemma_admits_kept(old(self), self);
            assert(was_read(*old(self), *self, begun, stands, false));
        }
    }

    fn key(&self) -> (key: &[u8]) {
        match self.direction {
            Direction::Forward => crate::format::required_user_key(self.iter.key()),
            Direction::Reverse => self.saved_key.as_slice(),
        }
    }

    fn value(&self) -> (value: &[u8]) {
        match self.direction {
            Direction::Forward => self.iter.value(),
            Direction::Reverse => self.saved_value.as_slice(),
        }
    }

    fn status(&self) -> (outcome: status::Result<()>) {
        match &self.failure {
            Some(error) => Err(error.clone()),
            None => self.iter.status(),
        }
    }
}

impl<C: Comparator, I: DbIterator> DBIter<C, I> {
    /// Moves the inner iterator ahead of all entries of the current user key. Says
    /// whether there is anything there.
    #[verifier::spinoff_prover]
    #[verifier::rlimit(40)]
    fn back_out(&mut self) -> (found: bool)
        requires
            old(self).wf(),
            old(self).valid,
            old(self).direction == Direction::Forward,
        ensures
            final(self).kept(),
            final(self).same_inner(old(self)),
            final(self).sampler == old(self).sampler,
            final(self).scan().keeps(old(self).scan()),
            final(self).failure is Some ==> old(self).failure is Some || !found,
            found && final(self).sound() ==> final(self).right_ahead(old(self).scan().key()),
            !found ==> final(self).wf() && !final(self).valid && final(self).tells() && (final(
                self).scan().good() ==> final(self).scan().ahead_of(old(self).scan().key())),
    {
        let ghost user = self.user_comparator;
        let ghost from = self.scan().key();
        let ghost sequence = self.sequence as nat;
        let ghost whole = self.whole();
        let current = vstd::slice::slice_to_vec(
            crate::format::required_user_key(self.iter.key()),
        );
        self.saved_key = current;
        let mut left: u64 = u64::MAX;
        proof {
            if whole {
                db_iterator::lemma_ahead_bounded(self.inner());
                user.less_irreflexive(from);
            }
        }
        loop
            invariant
                self.kept(),
                self.same_inner(old(self)),
                self.inner().current is Some,
                self.direction == Direction::Forward,
                user == self.user_comparator,
                sequence == self.sequence as nat,
                whole == self.whole(),
                whole == old(self).whole(),
                from == old(self).scan().key(),
                self.saved_key@ == from,
                user.admits(from),
                self.scan().keeps(old(self).scan()),
                self.failure == old(self).failure,
                self.sampler == old(self).sampler,
                self.sound() ==> {
                    &&& self.inner().contents.contains_key(self.inner().key())
                    &&& !user.less(user_view::user_of(self.inner().key()), from)
                    &&& db_iterator::behind(self.inner()) <= left
                },
            decreases left,
        {
            let ghost earlier = self.inner();
            proof {
                if self.sound() {
                    db_iterator::lemma_ahead_positive(earlier);
                }
            }
            if left == 0 {
                self.failure = Some(Status::corruption("DBIter: endless iterator"));
                self.valid = false;
                return false;
            }
            left = left - 1;
            self.iter.prev();
            proof {
                if self.sound() {
                    db_iterator::lemma_behind_falls(earlier, self.inner());
                }
            }
            if !self.iter.valid() {
                self.valid = false;
                self.saved_key.clear();
                self.saved_value.clear();
                proof {
                    if self.sound() {
                        lemma_nothing_ahead(
                            user,
                            earlier,
                            self.inner(),
                            sequence,
                            from,
                            self.scan(),
                        );
                    }
                }
                return false;
            }
            let user_key = match crate::format::extract_user_key(self.iter.key()) {
                None => {
                    self.failure = Some(Status::corruption("corrupted internal key in DBIter"));
                    self.valid = false;
                    return false;
                },
                Some(user_key) => user_key,
            };
            if !self.user_comparator.accepts(user_key) {
                self.failure = Some(Status::corruption("corrupted internal key in DBIter"));
                self.valid = false;
                return false;
            }
            if comparator::precedes(&self.user_comparator, user_key, self.saved_key.as_slice()) {
                proof {
                    if self.sound() {
                        lemma_backed_out(user, earlier, self.inner(), sequence, from);
                    }
                }
                return true;
            }
        }
    }
}

/// The keys that may be sought stay the same.
proof fn lemma_admits_kept<C: Comparator, I: DbIterator>(
    earlier: &DBIter<C, I>,
    later: &DBIter<C, I>,
)
    requires
        later.same_inner(earlier),
    ensures
        later.scan().same_source(earlier.scan()),
        later.whole() == earlier.whole(),
        later.safe() == earlier.safe(),
{
    assert(later.scan().admits =~= earlier.scan().admits);
}

proof fn lemma_start_first<C: Comparator>(user: C, scan: Scan, sequence: nat, sweep: Sweep)
    requires
        user_view::internal_row(user, scan),
        scan.at_first(),
        sweep.place == place_of(scan),
        !sweep.skipping,
        forall|u: Seq<u8>| !(#[trigger] (sweep.out)(u)),
        forall|u: Seq<u8>| #[trigger] (sweep.wanted)(u),
    ensures
        sweep.sound(user, scan.contents, sequence),
{
    let order = InternalKeyComparator::over(user);
    InternalKeyComparator::<C>::lemma_over(user);
    assert forall|x: Seq<u8>| #[trigger]
        user_view::visible(scan.contents, sequence, x) implies !user_view::is_passed(
        user,
        x,
        sweep.place,
    ) by {
        assert(scan.contents.contains_key(x));
        let first = scan.key();
        assert(scan.contents.contains_key(first));
        order.less_irreflexive(first);
        if x != first && order.less(x, first) {
            assert(order.less(first, x));
            order.less_transitive(first, x, first);
        }
    }
}

proof fn lemma_start_seek<C: Comparator>(
    user: C,
    scan: Scan,
    sequence: nat,
    target: Seq<u8>,
    sweep: Sweep,
)
    requires
        user_view::internal_row(user, scan),
        sequence <= crate::format::MAX_SEQUENCE_NUMBER,
        user.admits(target),
        scan.at_or_after(
            crate::format::internal_key_bytes(target, sequence, VALUE_TYPE_FOR_SEEK),
        ),
        sweep.place == place_of(scan),
        !sweep.skipping,
        forall|u: Seq<u8>| #[trigger] (sweep.out)(u) == user.less(u, target),
        forall|u: Seq<u8>| #[trigger] (sweep.wanted)(u) == !user.less(u, target),
    ensures
        sweep.sound(user, scan.contents, sequence),
{
    let order = InternalKeyComparator::over(user);
    InternalKeyComparator::<C>::lemma_over(user);
    let goal = crate::format::internal_key_bytes(target, sequence, VALUE_TYPE_FOR_SEEK);
    crate::format::lemma_internal_key_parts(
        target,
        crate::format::packed(sequence, VALUE_TYPE_FOR_SEEK),
    );
    assert forall|x: Seq<u8>| #[trigger]
        user_view::visible(scan.contents, sequence, x) implies user_view::is_passed(
        user,
        x,
        sweep.place,
    ) == user.less(user_view::user_of(x), target) by {
        let u = user_view::user_of(x);
        assert(scan.contents.contains_key(x));
        // A visible entry is ahead of the goal only if its user key is.
        assert(order.less(x, goal) == user.less(u, target)) by {
            let tag = crate::format::tag_part(x);
            assert(tag / 256 <= sequence);
            assert(tag == tag / 256 * 256 + tag % 256);
            if user.less(u, target) && user.less(target, u) {
                user.less_transitive(u, target, u);
                user.less_irreflexive(u);
            }
        }
        if scan.current is Some {
            let at = scan.key();
            assert(scan.contents.contains_key(at));
            assert(order.admits(goal));
            if order.less(x, goal) {
                order.less_splits(x, at, goal);
            } else {
                if x != at {
                    assert(order.less(at, x));
                    if order.less(x, at) {
                        order.less_transitive(x, at, x);
                        order.less_irreflexive(x);
                    }
                } else {
                    order.less_irreflexive(x);
                }
            }
        } else {
            assert(order.less(x, goal));
        }
    }
    assert forall|x: Seq<u8>, y: Seq<u8>|
        #![trigger user_view::visible(scan.contents, sequence, x), user_view::visible(scan.contents, sequence, y)]
        user_view::visible(scan.contents, sequence, x) && user_view::visible(
            scan.contents,
            sequence,
            y,
        ) && user_view::same(user, user_view::user_of(x), user_view::user_of(y)) implies (
    sweep.out)(user_view::user_of(x)) == (sweep.out)(user_view::user_of(y)) by {
        assert(scan.contents.contains_key(x));
        assert(scan.contents.contains_key(y));
        user_view::lemma_same_less(user, user_view::user_of(x), user_view::user_of(y), target);
    }
}

/// Behind an entry that is shown, its user key is skipped.
proof fn lemma_start_next<C: Comparator>(user: C, scan: Scan, sequence: nat, sweep: Sweep)
    requires
        user_view::internal_row(user, scan),
        scan.current is Some,
        user_view::shown(user, scan.contents, sequence, scan.key()),
        sweep.place == Some(scan.key()),
        sweep.skipping,
        sweep.saved == user_view::user_of(scan.key()),
        forall|u: Seq<u8>| !(#[trigger] (sweep.out)(u)),
        forall|u: Seq<u8>| #[trigger] (sweep.wanted)(u) == user.less(sweep.saved, u),
    ensures
        sweep.sound(user, scan.contents, sequence),
{
    InternalKeyComparator::<C>::lemma_over(user);
    let here = scan.key();
    assert(scan.contents.contains_key(here));
    assert forall|x: Seq<u8>| #[trigger]
        user_view::visible(scan.contents, sequence, x) implies {
        let u = user_view::user_of(x);
        &&& user_view::is_passed(user, x, sweep.place) ==> !user.less(sweep.saved, u)
        &&& !user_view::is_passed(user, x, sweep.place) ==> !user.less(u, sweep.saved)
    } by {
        assert(scan.contents.contains_key(x));
        user_view::lemma_internal_less(user, x, here);
        if user_view::is_passed(user, x, sweep.place) {
            user_view::lemma_user_order(user, x, here);
        }
    }
}

/// A step forward from right ahead of a user key leads to its entries.
proof fn lemma_start_turned<C: Comparator>(
    user: C,
    earlier: Scan,
    later: Scan,
    sequence: nat,
    from: Seq<u8>,
    sweep: Sweep,
)
    requires
        user_view::internal_row(user, later),
        later.same_source(earlier),
        user.admits(from),
        earlier.current matches Some((at, _)) ==> earlier.contents.contains_key(at),
        forall|x: Seq<u8>| #[trigger]
            user_view::visible(earlier.contents, sequence, x) ==> user_view::is_upto(
                user,
                x,
                place_of(earlier),
            ) == user.less(user_view::user_of(x), from),
        earlier.current is None ==> later.at_first(),
        earlier.current is Some ==> later.after(earlier.key()),
        sweep.place == place_of(later),
        sweep.skipping,
        sweep.saved == from,
        forall|u: Seq<u8>| !(#[trigger] (sweep.out)(u)),
        forall|u: Seq<u8>| #[trigger] (sweep.wanted)(u) == user.less(from, u),
    ensures
        sweep.sound(user, later.contents, sequence),
{
    let order = InternalKeyComparator::over(user);
    InternalKeyComparator::<C>::lemma_over(user);
    assert forall|x: Seq<u8>| #[trigger]
        user_view::visible(later.contents, sequence, x) implies user_view::is_passed(
        user,
        x,
        sweep.place,
    ) == user_view::is_upto(user, x, place_of(earlier)) by {
        assert(later.contents.contains_key(x));
        if earlier.current is None {
            if later.current is Some {
                let first = later.key();
                assert(later.contents.contains_key(first));
                order.less_irreflexive(first);
                if x != first && order.less(x, first) {
                    assert(order.less(first, x));
                    order.less_transitive(first, x, first);
                }
            }
        } else {
            let at = earlier.key();
            assert(later.contents.contains_key(at));
            order.less_irreflexive(at);
            if later.current is Some {
                let to = later.key();
                assert(later.contents.contains_key(to));
                assert(order.less(at, to));
                if order.less(at, x) {
                    if x != to {
                        assert(order.less(to, x));
                        if order.less(x, to) {
                            order.less_transitive(to, x, to);
                            order.less_irreflexive(to);
                        }
                    } else {
                        order.less_irreflexive(to);
                    }
                } else if !order.less(x, to) {
                    order.less_splits(at, x, to);
                }
            }
        }
    }
    assert forall|x: Seq<u8>| #[trigger]
        user_view::visible(later.contents, sequence, x) implies {
        let u = user_view::user_of(x);
        &&& user_view::is_passed(user, x, sweep.place) ==> !user.less(sweep.saved, u)
        &&& !user_view::is_passed(user, x, sweep.place) ==> !user.less(u, sweep.saved)
    } by {
        let u = user_view::user_of(x);
        assert(later.contents.contains_key(x));
        if user.less(u, from) && user.less(from, u) {
            user.less_transitive(u, from, u);
            user.less_irreflexive(u);
        }
    }
}

proof fn lemma_start_last<C: Comparator>(user: C, scan: Scan, sequence: nat, retreat: Retreat)
    requires
        user_view::internal_row(user, scan),
        scan.at_last(),
        retreat.place == place_of(scan),
        retreat.held is None,
        forall|u: Seq<u8>| #[trigger] (retreat.wanted)(u),
    ensures
        retreat.sound(user, scan.contents, sequence),
        falls(user, scan.contents, sequence, retreat.wanted),
{
    let order = InternalKeyComparator::over(user);
    InternalKeyComparator::<C>::lemma_over(user);
    assert forall|x: Seq<u8>| #[trigger]
        user_view::visible(scan.contents, sequence, x) implies user_view::is_upto(
        user,
        x,
        retreat.place,
    ) by {
        assert(scan.contents.contains_key(x));
        let last = scan.key();
        assert(scan.contents.contains_key(last));
        order.less_irreflexive(last);
        if x != last && order.less(last, x) {
            assert(order.less(x, last));
            order.less_transitive(last, x, last);
        }
    }
}

proof fn lemma_start_prev<C: Comparator>(
    user: C,
    scan: Scan,
    sequence: nat,
    from: Seq<u8>,
    retreat: Retreat,
)
    requires
        user_view::internal_row(user, scan),
        user.admits(from),
        forall|x: Seq<u8>| #[trigger]
            user_view::visible(scan.contents, sequence, x) ==> user_view::is_upto(
                user,
                x,
                place_of(scan),
            ) == user.less(user_view::user_of(x), from),
        retreat.place == place_of(scan),
        retreat.held is None,
        forall|u: Seq<u8>| #[trigger] (retreat.wanted)(u) == user.less(u, from),
    ensures
        retreat.sound(user, scan.contents, sequence),
        falls(user, scan.contents, sequence, retreat.wanted),
{
    assert forall|x: Seq<u8>, y: Seq<u8>|
        #![trigger user_view::visible(scan.contents, sequence, x), user_view::visible(scan.contents, sequence, y)]
        user_view::visible(scan.contents, sequence, x) && user_view::visible(
            scan.contents,
            sequence,
            y,
        ) implies {
        let (a, b) = (user_view::user_of(x), user_view::user_of(y));
        &&& user_view::same(user, a, b) ==> (retreat.wanted)(a) == (retreat.wanted)(b)
        &&& (retreat.wanted)(b) && user.less(a, b) ==> (retreat.wanted)(a)
    } by {
        let (a, b) = (user_view::user_of(x), user_view::user_of(y));
        assert(scan.contents.contains_key(x));
        assert(scan.contents.contains_key(y));
        if user_view::same(user, a, b) {
            user_view::lemma_same_less(user, a, b, from);
        }
        if user.less(b, from) && user.less(a, b) {
            user.less_transitive(a, b, from);
        }
    }
}

/// The first entry with a smaller user key, going back, is right ahead.
proof fn lemma_backed_out<C: Comparator>(
    user: C,
    earlier: Scan,
    later: Scan,
    sequence: nat,
    from: Seq<u8>,
)
    requires
        user_view::internal_row(user, later),
        later.same_source(earlier),
        user.admits(from),
        earlier.current is Some,
        earlier.contents.contains_key(earlier.key()),
        !user.less(user_view::user_of(earlier.key()), from),
        later.ahead_of(earlier.key()),
        later.current is Some,
        user.less(user_view::user_of(later.key()), from),
    ensures
        later.contents.contains_key(later.key()),
        later.contents[later.key()] == later.value(),
        forall|x: Seq<u8>| #[trigger]
            user_view::visible(later.contents, sequence, x) ==> user_view::is_upto(
                user,
                x,
                place_of(later),
            ) == user.less(user_view::user_of(x), from),
{
    let order = InternalKeyComparator::over(user);
    InternalKeyComparator::<C>::lemma_over(user);
    let last = earlier.key();
    let at = later.key();
    assert forall|x: Seq<u8>| #[trigger]
        user_view::visible(later.contents, sequence, x) implies user_view::is_upto(
        user,
        x,
        place_of(later),
    ) == user.less(user_view::user_of(x), from) by {
        let u = user_view::user_of(x);
        assert(later.contents.contains_key(x));
        assert(later.contents.contains_key(at));
        assert(later.contents.contains_key(last));
        if order.less(at, x) {
            // Everything behind `at` is at or behind the entry before it.
            if user.less(u, from) {
                if order.less(x, last) {
                    if x != at {
                        assert(order.less(x, at));
                        order.less_transitive(at, x, at);
                    }
                    order.less_irreflexive(at);
                } else {
                    user_view::lemma_internal_less(user, x, last);
                    user_view::lemma_not_behind(user, from, user_view::user_of(last), u);
                }
            }
        } else {
            user_view::lemma_internal_less(user, at, x);
            if !user.less(u, from) {
                user.less_splits(user_view::user_of(at), u, from);
            }
        }
    }
}

/// Where going back ends, no smaller user key is shown.
proof fn lemma_nothing_ahead<C: Comparator>(
    user: C,
    earlier: Scan,
    later: Scan,
    sequence: nat,
    from: Seq<u8>,
    view: Scan,
)
    requires
        user_view::internal_row(user, later),
        later.same_source(earlier),
        user.admits(from),
        earlier.current is Some,
        earlier.contents.contains_key(earlier.key()),
        !user.less(user_view::user_of(earlier.key()), from),
        later.ahead_of(earlier.key()),
        later.current is None,
        view.contents == user_view::user_view(user, later.contents, sequence),
        view.before == comparator::order_of(user),
        view.current is None,
    ensures
        view.ahead_of(from),
{
    let order = InternalKeyComparator::over(user);
    InternalKeyComparator::<C>::lemma_over(user);
    let last = earlier.key();
    assert forall|other: Seq<u8>| #[trigger]
        view.contents.contains_key(other) implies !user.less(other, from) by {
        let x = choose|x: Seq<u8>| #[trigger]
            user_view::shown(user, later.contents, sequence, x) && user_view::user_of(x) == other;
        assert(user_view::visible(later.contents, sequence, x));
        assert(later.contents.contains_key(x));
        assert(!order.less(x, last));
        user_view::lemma_internal_less(user, x, last);
        if user.less(other, from) {
            user_view::lemma_not_behind(user, from, user_view::user_of(last), other);
        }
    }
}

} // verus!
