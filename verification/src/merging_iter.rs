//! Iterator over several sorted sources at once.

use vstd::prelude::*;

use crate::comparator;
use crate::comparator::Comparator;
use crate::db_iter::db_iterator;
use crate::db_iter::db_iterator::DbIterator;
use crate::db_iter::db_iterator::Scan;
use crate::status;
use crate::status::Status;

verus! {

#[derive(Debug, Copy, Clone, PartialEq, Eq, Structural)]
enum Direction {
    Forward,
    Reverse,
}

/// Whether some of the sources has a key.
pub open spec fn any_has(sources: Seq<Map<Seq<u8>, Seq<u8>>>, key: Seq<u8>) -> bool {
    exists|i: int| 0 <= i < sources.len() && #[trigger] sources[i].contains_key(key)
}

/// The entries of all sources.
pub open spec fn merged(sources: Seq<Map<Seq<u8>, Seq<u8>>>) -> Map<Seq<u8>, Seq<u8>> {
    Map::new(
        |key: Seq<u8>| any_has(sources, key),
        |key: Seq<u8>|
            sources[choose|i: int| 0 <= i < sources.len() && #[trigger] sources[i].contains_key(
                key,
            )][key],
    )
}

/// No two sources have keys that are as good as each other, and all keys can be
/// sought.
pub open spec fn disjoint<C: Comparator>(
    comparator: C,
    sources: Seq<Map<Seq<u8>, Seq<u8>>>,
) -> bool {
    &&& forall|i: int, key: Seq<u8>|
        0 <= i < sources.len() && #[trigger] sources[i].contains_key(key)
            ==> comparator::short_domain_of(comparator)(key)
    &&& forall|i: int, j: int, a: Seq<u8>, b: Seq<u8>|
        #![trigger sources[i].contains_key(a), sources[j].contains_key(b)]
        0 <= i < sources.len() && 0 <= j < sources.len() && i != j && sources[i].contains_key(a)
            && sources[j].contains_key(b) ==> comparator.less(a, b) || comparator.less(b, a)
}

/// Each source is sound, nothing went wrong with it, and all its keys can be sought.
pub open spec fn keyed<C: Comparator>(comparator: C, scans: Seq<Scan>) -> bool {
    forall|i: int|
        0 <= i < scans.len() ==> (#[trigger] scans[i]).good() && keys_admitted(
            comparator,
            scans[i],
        )
}

/// All keys of a source can be sought.
pub open spec fn keys_admitted<C: Comparator>(comparator: C, scan: Scan) -> bool {
    forall|key: Seq<u8>| #[trigger]
        scan.contents.contains_key(key) ==> comparator::short_domain_of(comparator)(key)
}

/// Each source stands on one of its entries, or nowhere.
pub open spec fn seated(scans: Seq<Scan>) -> bool {
    forall|i: int| 0 <= i < scans.len() ==> is_seated(#[trigger] scans[i])
}

/// A source stands on one of its entries, or nowhere.
pub open spec fn is_seated(scan: Scan) -> bool {
    scan.current matches Some((key, value)) ==> scan.contents.contains_key(key)
        && scan.contents[key] == value
}

/// The source whose key is least is chosen, the first of them if there are several.
pub open spec fn picks_least<C: Comparator>(
    comparator: C,
    scans: Seq<Scan>,
    at: Option<int>,
) -> bool {
    match at {
        None => forall|i: int| 0 <= i < scans.len() ==> (#[trigger] scans[i]).current is None,
        Some(s) => {
            &&& 0 <= s < scans.len()
            &&& scans[s].current is Some
            &&& forall|i: int|
                0 <= i < scans.len() && i != s && (#[trigger] scans[i]).current is Some ==> if i
                    < s {
                    comparator.less(scans[s].key(), scans[i].key())
                } else {
                    !comparator.less(scans[i].key(), scans[s].key())
                }
        },
    }
}

/// The source whose key is greatest is chosen, the first of them if there are several.
pub open spec fn picks_greatest<C: Comparator>(
    comparator: C,
    scans: Seq<Scan>,
    at: Option<int>,
) -> bool {
    match at {
        None => forall|i: int| 0 <= i < scans.len() ==> (#[trigger] scans[i]).current is None,
        Some(s) => {
            &&& 0 <= s < scans.len()
            &&& scans[s].current is Some
            &&& forall|i: int|
                0 <= i < scans.len() && i != s && (#[trigger] scans[i]).current is Some ==> if i
                    < s {
                    comparator.less(scans[i].key(), scans[s].key())
                } else {
                    !comparator.less(scans[s].key(), scans[i].key())
                }
        },
    }
}

/// The entry of the source that is chosen.
pub open spec fn picked(scans: Seq<Scan>, at: Option<int>) -> Option<db_iterator::Pair> {
    match at {
        None => None,
        Some(s) => scans[s].current,
    }
}

/// The same sources, wherever they stand.
pub open spec fn same_sources(later: Seq<Scan>, earlier: Seq<Scan>) -> bool {
    &&& later.len() == earlier.len()
    &&& forall|i: int|
        0 <= i < later.len() ==> (#[trigger] later[i]).same_source(earlier[i])
}

/// A step on: the source that was chosen goes past its key. The others stay, or go past
/// that key too where the last step was one back.
pub open spec fn stepped_on(earlier: Seq<Scan>, at: int, forward: bool, later: Seq<Scan>) -> bool {
    &&& same_sources(later, earlier)
    &&& forall|i: int|
        0 <= i < later.len() ==> if i == at || !forward {
            (#[trigger] later[i]).after(earlier[at].key())
        } else {
            later[i] == earlier[i]
        }
}

/// A step back: the source that was chosen goes ahead of its key. The others stay, or go
/// ahead of that key too where the last step was one on.
pub open spec fn stepped_back(
    earlier: Seq<Scan>,
    at: int,
    forward: bool,
    later: Seq<Scan>,
) -> bool {
    &&& same_sources(later, earlier)
    &&& forall|i: int|
        0 <= i < later.len() ==> if i == at || forward {
            (#[trigger] later[i]).ahead_of(earlier[at].key())
        } else {
            later[i] == earlier[i]
        }
}

/// Whether an iterator was moved to one end: each source stands at that end, and the one with
/// the least key is chosen, or the one with the greatest.
pub open spec fn is_at_end<C: Comparator>(iter: MergingIterator<C>, forward: bool) -> bool {
    keyed(iter.order(), iter.scans()) ==> {
        &&& forall|i: int|
            0 <= i < iter.scans().len() ==> if forward {
                (#[trigger] iter.scans()[i]).at_first()
            } else {
                iter.scans()[i].at_last()
            }
        &&& iter.picks(forward)
        &&& iter.forward() == forward
    }
}

/// Whether an iterator was moved a step: on, or back.
pub open spec fn is_step<C: Comparator>(
    earlier: MergingIterator<C>,
    later: MergingIterator<C>,
    forward: bool,
) -> bool {
    keyed(later.order(), later.scans()) && keyed(earlier.order(), earlier.scans()) && seated(
        earlier.scans(),
    ) ==> {
        &&& if forward {
            stepped_on(earlier.scans(), earlier.at()->0, earlier.forward(), later.scans())
        } else {
            stepped_back(earlier.scans(), earlier.at()->0, earlier.forward(), later.scans())
        }
        &&& later.picks(forward)
        &&& later.forward() == forward
    }
}

/// What went wrong first.
pub open spec fn first_failure(scans: Seq<Scan>, from: int) -> Option<Status>
    decreases scans.len() - from,
{
    if from >= scans.len() {
        None
    } else if scans[from].failure is Some {
        scans[from].failure
    } else {
        first_failure(scans, from + 1)
    }
}

/// Whether an error is one that the iterator itself reports: the key of a source cannot be
/// compared with the others.
pub open spec fn is_own_failure(error: Status) -> bool {
    error.says(status::Code::Corruption, "MergingIterator: malformed key"@)
}

/// Merges sorted sources into one. A step takes the least, or the greatest, of the
/// current keys of all sources.
pub struct MergingIterator<C: Comparator> {
    comparator: C,
    children: Vec<Box<dyn DbIterator>>,
    current: Option<usize>,
    direction: Direction,
    failure: Option<Status>,
}

impl<C: Comparator> MergingIterator<C> {
    /// The sources.
    pub closed spec fn scans(&self) -> Seq<Scan> {
        Seq::new(self.children@.len(), |i: int| self.children@[i].scan())
    }

    /// What the sources hold.
    pub closed spec fn sources(&self) -> Seq<Map<Seq<u8>, Seq<u8>>> {
        Seq::new(self.children@.len(), |i: int| self.children@[i].scan().contents)
    }

    /// The comparator of the keys.
    pub closed spec fn order(&self) -> C {
        self.comparator
    }

    /// The source that is chosen.
    pub closed spec fn at(&self) -> Option<int> {
        match self.current {
            None => None,
            Some(at) => Some(at as int),
        }
    }

    /// What went wrong in the iterator itself, not in one of the sources.
    pub closed spec fn own_failure(&self) -> Option<Status> {
        self.failure
    }

    /// Whether the last step was one on.
    pub closed spec fn forward(&self) -> bool {
        self.direction == Direction::Forward
    }

    /// The source with the least key is chosen, or the one with the greatest.
    pub open spec fn picks(&self, forward: bool) -> bool {
        if forward {
            picks_least(self.order(), self.scans(), self.at())
        } else {
            picks_greatest(self.order(), self.scans(), self.at())
        }
    }

    /// Whether the keys that the sources stand on can be compared.
    spec fn comparable(&self) -> bool {
        forall|i: int|
            0 <= i < self.scans().len() && (#[trigger] self.scans()[i]).current is Some
                ==> self.comparator.admits(self.scans()[i].key())
    }

    /// Whether each source is sound.
    pub closed spec fn all_intact(&self) -> bool {
        forall|i: int| 0 <= i < self.children@.len() ==> (#[trigger] self.children@[i]).scan().intact
    }

    /// Whether each source is sound and can always be read.
    spec fn all_steady(&self) -> bool {
        forall|i: int| 0 <= i < self.children@.len() ==> (#[trigger] self.children@[i]).scan().steady
    }

    /// Whether each source is sound, and nothing went wrong with it.
    spec fn all_good(&self) -> bool {
        forall|i: int| 0 <= i < self.children@.len() ==> (#[trigger] self.children@[i]).scan().good()
    }

    spec fn whole(&self) -> bool {
        self.all_intact() && disjoint(self.comparator, self.sources())
    }

    /// The sources are sound and disjoint, and nothing went wrong with them.
    spec fn sound(&self) -> bool {
        self.all_good() && disjoint(self.comparator, self.sources())
    }

    /// The sources are sound and disjoint, and can always be read.
    spec fn safe(&self) -> bool {
        self.whole() && self.all_steady()
    }

    /// What holds between and during moves.
    spec fn kept(&self) -> bool {
        &&& forall|i: int|
            0 <= i < self.children@.len() ==> {
                &&& (#[trigger] self.children@[i]).wf()
                &&& self.children@[i].scan().before == comparator::order_of(self.comparator)
                &&& forall|key: Seq<u8>|
                    comparator::short_domain_of(self.comparator)(key) ==> #[trigger] (
                    self.children@[i].scan().admits)(key)
            }
        &&& self.safe() ==> self.failure is None && self.all_good()
        &&& self.failure matches Some(error) ==> is_own_failure(error)
    }

    /// Only positions differ.
    spec fn same_children(&self, other: &Self) -> bool {
        &&& self.comparator == other.comparator
        &&& self.children@.len() == other.children@.len()
        &&& forall|i: int|
            0 <= i < self.children@.len() ==> (#[trigger] self.children@[i]).scan().same_source(
                other.children@[i].scan(),
            )
    }

    /// The source that is current stands on an entry; the others stand right
    /// behind it, or right ahead of it.
    spec fn placed(&self) -> bool {
        match self.current {
            None => true,
            Some(at) => {
                &&& at < self.children@.len()
                &&& self.children@[at as int].scan().current is Some
                &&& self.all_seated()
                &&& self.sound() ==> self.others_beside(
                    self.children@[at as int].scan().key(),
                    at as int,
                )
            },
        }
    }

    /// Each source with which nothing went wrong stands on one of its entries, or nowhere.
    spec fn all_seated(&self) -> bool {
        forall|i: int|
            0 <= i < self.children@.len() && (#[trigger] self.children@[i]).scan().good()
                ==> is_seated(self.children@[i].scan())
    }

    spec fn others_beside(&self, key: Seq<u8>, at: int) -> bool {
        forall|i: int|
            0 <= i < self.children@.len() && i != at ==> if self.direction == Direction::Forward {
                (#[trigger] self.children@[i]).scan().after(key)
            } else {
                self.children@[i].scan().ahead_of(key)
            }
    }

    pub fn new(comparator: C, children: Vec<Box<dyn DbIterator>>) -> (iter: Self)
        requires
            forall|i: int|
                0 <= i < children@.len() ==> {
                    &&& (#[trigger] children@[i]).wf()
                    &&& children@[i].scan().before == comparator::order_of(comparator)
                    &&& forall|key: Seq<u8>|
                        comparator::short_domain_of(comparator)(key) ==> #[trigger] (
                        children@[i].scan().admits)(key)
                },
        ensures
            iter.wf(),
            iter.order() == comparator,
            iter.scans() == Seq::new(children@.len(), |i: int| children@[i].scan()),
            iter.scan().current is None,
            iter.scan().failure == first_failure(iter.scans(), 0),
            iter.own_failure() is None,
            (forall|i: int|
                0 <= i < children@.len() ==> (#[trigger] children@[i]).scan().failure is None)
                ==> iter.scan().failure is None,
    {
        // A source that is sound and can always be read tells no failure.
        let mut index: usize = 0;
        while index < children.len()
            invariant
                index <= children@.len(),
                forall|i: int| 0 <= i < children@.len() ==> (#[trigger] children@[i]).wf(),
                forall|i: int| 0 <= i < index ==> (#[trigger] children@[i]).scan().calm(),
            decreases children@.len() - index,
        {
            let _ = children[index].status();
            index = index + 1;
        }
        let iter = MergingIterator {
            comparator,
            children,
            current: None,
            direction: Direction::Forward,
            failure: None,
        };
        proof {
            lemma_no_failure(iter.scans(), 0);
        }
        iter
    }

    /// What the iterator runs over.
    pub proof fn lemma_scan(&self)
        ensures
            self.scan().contents == merged(self.sources()),
            self.scan().before == comparator::order_of(self.order()),
            self.scan().admits == comparator::short_domain_of(self.order()),
            self.scan().intact == (self.all_intact() && disjoint(self.order(), self.sources())),
            self.scan().steady == (forall|i: int|
                0 <= i < self.scans().len() ==> (#[trigger] self.scans()[i]).steady),
            self.scan().failure == if self.own_failure() is Some {
                self.own_failure()
            } else {
                first_failure(self.scans(), 0)
            },
            self.wf() ==> (self.own_failure() matches Some(error) ==> is_own_failure(error)),
            self.wf() ==> self.scan().current == picked(self.scans(), self.at()),
            self.wf() && self.at() is Some ==> 0 <= self.at()->0 < self.scans().len(),
            self.sources() == Seq::new(self.scans().len(), |i: int| self.scans()[i].contents),
            self.all_intact() == (forall|i: int|
                0 <= i < self.scans().len() ==> (#[trigger] self.scans()[i]).intact),
    {
        assert(self.sources() =~= Seq::new(self.scans().len(), |i: int| self.scans()[i].contents));
        if forall|i: int| 0 <= i < self.scans().len() ==> (#[trigger] self.scans()[i]).intact {
            assert forall|i: int| 0 <= i < self.children@.len() implies (
            #[trigger] self.children@[i]).scan().intact by {
                assert(self.scans()[i].intact);
            }
        }
        if forall|i: int| 0 <= i < self.scans().len() ==> (#[trigger] self.scans()[i]).steady {
            assert forall|i: int| 0 <= i < self.children@.len() implies (
            #[trigger] self.children@[i]).scan().steady by {
                assert(self.scans()[i].steady);
            }
        }
    }

    /// Each source is sound, and all its keys can be sought.
    spec fn fits(&self) -> bool {
        forall|i: int|
            0 <= i < self.children@.len() ==> (#[trigger] self.children@[i]).scan().intact
                && keys_admitted(self.comparator, self.children@[i].scan())
    }

    proof fn lemma_fits(&self)
        requires
            self.whole() || self.sound() || keyed(self.comparator, self.scans()),
        ensures
            self.fits(),
            keyed(self.comparator, self.scans()) ==> self.all_good(),
    {
        assert forall|i: int| 0 <= i < self.children@.len() implies (
        #[trigger] self.children@[i]).scan().intact && keys_admitted(
            self.comparator,
            self.children@[i].scan(),
        ) && (keyed(self.comparator, self.scans()) ==> self.children@[i].scan().good()) by {
            let scan = self.children@[i].scan();
            assert(self.scans()[i] == scan);
            if keyed(self.comparator, self.scans()) {
                assert(self.scans()[i].good());
            } else {
                assert forall|key: Seq<u8>| #[trigger]
                    scan.contents.contains_key(key) implies comparator::short_domain_of(
                    self.comparator,
                )(key) by {
                    assert(self.sources()[i].contains_key(key));
                }
                assert(self.sound() ==> scan.good());
            }
        }
    }

    proof fn lemma_same_fits(&self, other: &Self)
        requires
            self.same_children(other),
        ensures
            self.fits() == other.fits(),
    {
        if self.fits() {
            assert forall|i: int| 0 <= i < other.children@.len() implies (
            #[trigger] other.children@[i]).scan().intact && keys_admitted(
                other.comparator,
                other.children@[i].scan(),
            ) by {
                assert(self.children@[i].scan().intact);
            }
        }
        if other.fits() {
            assert forall|i: int| 0 <= i < self.children@.len() implies (
            #[trigger] self.children@[i]).scan().intact && keys_admitted(
                self.comparator,
                self.children@[i].scan(),
            ) by {
                assert(other.children@[i].scan().intact);
            }
        }
    }

    /// A source is chosen where the iterator stands on an entry, and only there.
    pub proof fn lemma_at(&self)
        requires
            self.wf(),
        ensures
            self.at() is Some == self.scan().current is Some,
    {
    }

    /// A source that tells a failure.
    spec fn ended(&self) -> Option<int> {
        if exists|i: int| 0 <= i < self.children@.len() && (#[trigger] self.children@[i]).scan().broken() {
            Some(choose|i: int|
                0 <= i < self.children@.len() && (#[trigger] self.children@[i]).scan().broken())
        } else {
            None
        }
    }

    /// What is told of the whole, by what is told of the sources.
    proof fn lemma_told(&self)
        ensures
            self.scan().failure is None == (self.failure is None && forall|i: int|
                0 <= i < self.children@.len() ==> (
                #[trigger] self.children@[i]).scan().failure is None),
            self.scan().good() ==> self.sound() && self.failure is None,
            self.scan().intact && self.scan().failure is Some && self.failure is None
                ==> self.ended() is Some,
    {
        let scans = self.scans();
        lemma_no_failure(scans, 0);
        if forall|i: int| 0 <= i < scans.len() ==> (#[trigger] scans[i]).failure is None {
            assert forall|i: int| 0 <= i < self.children@.len() implies (
            #[trigger] self.children@[i]).scan().failure is None by {
                assert(scans[i].failure is None);
            }
        }
        if self.scan().good() {
            assert forall|i: int| 0 <= i < self.children@.len() implies (
            #[trigger] self.children@[i]).scan().good() by {
                assert(scans[i].failure is None);
                assert(self.children@[i].scan().intact);
            }
        }
        if self.scan().intact && self.scan().failure is Some && self.failure is None {
            let i = choose|i: int|
                0 <= i < self.children@.len() && (
                #[trigger] self.children@[i]).scan().failure is Some;
            assert(self.children@[i].scan().intact);
            assert(self.children@[i].scan().broken());
        }
    }

    /// What holds during moves still does, once a source was moved.
    proof fn lemma_stays_kept(&self, other: &Self, at: int)
        requires
            other.kept(),
            self.same_children(other),
            0 <= at < self.children@.len(),
            forall|i: int|
                0 <= i < self.children@.len() && i != at ==> #[trigger] self.children@[i]
                    == other.children@[i],
            self.children@[at].wf(),
            self.children@[at].scan().calm(),
            self.failure == other.failure,
        ensures
            self.kept(),
    {
        self.lemma_same(other);
        assert forall|i: int| 0 <= i < self.children@.len() implies {
            &&& (#[trigger] self.children@[i]).wf()
            &&& self.children@[i].scan().before == comparator::order_of(self.comparator)
            &&& forall|key: Seq<u8>|
                comparator::short_domain_of(self.comparator)(key) ==> #[trigger] (
                self.children@[i].scan().admits)(key)
        } by {
            assert(other.children@[i].wf());
            assert(self.children@[i].scan().same_source(other.children@[i].scan()));
        }
        if self.safe() {
            assert forall|i: int| 0 <= i < self.children@.len() implies (
            #[trigger] self.children@[i]).scan().good() by {
                assert(self.children@[i].scan().intact);
                assert(self.children@[i].scan().steady);
                assert(other.children@[i].scan().good());
            }
        }
    }

    proof fn lemma_comparable(&self)
        requires
            keyed(self.comparator, self.scans()),
            seated(self.scans()),
        ensures
            self.comparable(),
    {
        assert forall|i: int|
            0 <= i < self.scans().len() && (
            #[trigger] self.scans()[i]).current is Some implies self.comparator.admits(
            self.scans()[i].key(),
        ) by {
            assert(is_seated(self.scans()[i]));
            assert(self.scans()[i].contents.contains_key(self.scans()[i].key()));
        }
    }

    proof fn lemma_same(&self, other: &Self)
        requires
            self.same_children(other),
        ensures
            self.sources() == other.sources(),
            self.all_intact() == other.all_intact(),
            self.whole() == other.whole(),
            self.safe() == other.safe(),
            self.all_steady() == other.all_steady(),
            same_sources(self.scans(), other.scans()),
    {
        assert(self.sources() =~= other.sources());
        assert forall|i: int| 0 <= i < self.scans().len() implies (
        #[trigger] self.scans()[i]).same_source(other.scans()[i]) by {
            assert(self.children@[i].scan().same_source(other.children@[i].scan()));
        }
        if self.all_steady() {
            assert forall|i: int| 0 <= i < other.children@.len() implies (
            #[trigger] other.children@[i]).scan().steady by {
                assert(self.children@[i].scan().steady);
            }
        }
        if other.all_steady() {
            assert forall|i: int| 0 <= i < self.children@.len() implies (
            #[trigger] self.children@[i]).scan().steady by {
                assert(other.children@[i].scan().steady);
            }
        }
        if self.all_intact() {
            assert forall|i: int| 0 <= i < other.children@.len() implies (
            #[trigger] other.children@[i]).scan().intact by {
                assert(self.children@[i].scan().intact);
            }
        }
        if other.all_intact() {
            assert forall|i: int| 0 <= i < self.children@.len() implies (
            #[trigger] self.children@[i]).scan().intact by {
                assert(other.children@[i].scan().intact);
            }
        }
    }

    /// Each child stands on the least of its wanted entries.
    spec fn all_least(&self, wanted: spec_fn(Seq<u8>) -> bool) -> bool {
        forall|i: int|
            0 <= i < self.children@.len() ==> (#[trigger] self.children@[i]).scan().on_least(wanted)
    }

    /// Each child stands on the greatest of its wanted entries.
    spec fn all_greatest(&self, wanted: spec_fn(Seq<u8>) -> bool) -> bool {
        forall|i: int|
            0 <= i < self.children@.len() ==> (
            #[trigger] self.children@[i]).scan().on_greatest(wanted)
    }

    /// Chooses the child with the least key.
    #[verifier::spinoff_prover]
    #[verifier::rlimit(40)]
    fn find_smallest(&mut self, Ghost(wanted): Ghost<spec_fn(Seq<u8>) -> bool>)
        requires
            old(self).kept(),
            old(self).all_seated(),
            old(self).sound() ==> old(self).all_least(wanted) && rising(
                old(self).comparator,
                old(self).sources(),
                wanted,
            ),
        ensures
            final(self).wf(),
            final(self).comparator == old(self).comparator,
            final(self).children == old(self).children,
            old(self).failure is Some ==> final(self).failure is Some,
            old(self).sound() ==> final(self).scan().on_least(wanted),
            final(self).forward(),
            old(self).comparable() ==> picks_least(
                final(self).comparator,
                final(self).scans(),
                final(self).at(),
            ),
    {
        let ghost whole = self.sound();
        let ghost sources = self.sources();
        self.direction = Direction::Forward;
        self.current = None;
        let mut smallest: Option<usize> = None;
        let mut index: usize = 0;
        while index < self.children.len()
            invariant
                self.kept(),
                index <= self.children@.len(),
                self.comparator == old(self).comparator,
                self.children == old(self).children,
                self.failure == old(self).failure,
                self.direction == Direction::Forward,
                self.current is None,
                self.all_seated(),
                whole == self.sound(),
                sources == self.sources(),
                whole ==> self.all_least(wanted),
                smallest matches Some(s) ==> s < index && self.children@[s as int].scan().current
                    is Some && self.comparator.admits(self.children@[s as int].scan().key()),
                forall|i: int|
                    0 <= i < index && (#[trigger] self.children@[i]).scan().current is Some
                        ==> self.comparator.admits(self.children@[i].scan().key()) && (
                    smallest matches Some(s) && (i < s ==> self.comparator.less(
                        self.children@[s as int].scan().key(),
                        self.children@[i].scan().key(),
                    )) && (i > s ==> !self.comparator.less(
                        self.children@[i].scan().key(),
                        self.children@[s as int].scan().key(),
                    ))),
                whole ==> forall|i: int|
                    0 <= i < index && (#[trigger] self.children@[i]).scan().current is Some ==> (
                    smallest matches Some(s) && (i == s || self.comparator.less(
                        self.children@[s as int].scan().key(),
                        self.children@[i].scan().key(),
                    ))),
            decreases self.children@.len() - index,
        {
            let child = &self.children[index];
            if child.valid() {
                if !self.comparator.accepts(child.key()) {
                    proof {
                        assert(old(self).scans()[index as int]
                            == self.children@[index as int].scan());
                        if whole {
                            assert(self.children@[index as int].scan().on_least(wanted));
                            assert(sources[index as int].contains_key(
                                self.children@[index as int].scan().key(),
                            ));
                        }
                    }
                    self.failure = Some(Status::corruption("MergingIterator: malformed key"));
                    return;
                }
                match smallest {
                    None => {
                        smallest = Some(index);
                    },
                    Some(s) => {
                        let take = comparator::precedes(
                            &self.comparator,
                            child.key(),
                            self.children[s].key(),
                        );
                        proof {
                            let first = self.children@[s as int].scan().key();
                            let fresh = self.children@[index as int].scan().key();
                            assert forall|i: int|
                                0 <= i < index && (#[trigger] self.children@[i]).scan().current is Some
                                    && self.comparator.less(
                                    fresh,
                                    first,
                                ) implies self.comparator.less(
                                fresh,
                                self.children@[i].scan().key(),
                            ) by {
                                let other = self.children@[i].scan().key();
                                if i < s {
                                    self.comparator.less_transitive(fresh, first, other);
                                } else if i > s {
                                    self.comparator.less_splits(fresh, other, first);
                                }
                            }
                            if whole {
                                let a = self.children@[s as int].scan().key();
                                let b = self.children@[index as int].scan().key();
                                assert(self.children@[s as int].scan().on_least(wanted));
                                assert(self.children@[index as int].scan().on_least(wanted));
                                assert(sources[s as int].contains_key(a));
                                assert(sources[index as int].contains_key(b));
                                assert(self.comparator.less(a, b) || self.comparator.less(b, a));
                                assert forall|i: int|
                                    0 <= i < index && (
                                    #[trigger] self.children@[i]).scan().current is Some
                                        && self.comparator.less(b, a) implies self.comparator.less(
                                    b,
                                    self.children@[i].scan().key(),
                                ) by {
                                    let c = self.children@[i].scan().key();
                                    assert(self.children@[i].scan().on_least(wanted));
                                    assert(sources[i].contains_key(c));
                                    if i != s {
                                        self.comparator.less_transitive(b, a, c);
                                    }
                                }
                            }
                        }
                        if take {
                            smallest = Some(index);
                        }
                    },
                }
            }
            index = index + 1;
        }
        self.current = smallest;
        proof {
            assert forall|i: int| 0 <= i < self.scans().len() implies #[trigger] self.scans()[i]
                == self.children@[i].scan() by {}
            if whole {
                self.lemma_smallest(wanted);
            }
        }
    }

    proof fn lemma_smallest(&self, wanted: spec_fn(Seq<u8>) -> bool)
        requires
            self.kept(),
            self.all_seated(),
            self.sound(),
            self.all_least(wanted),
            self.direction == Direction::Forward,
            rising(self.comparator, self.sources(), wanted),
            self.current matches Some(s) ==> s < self.children@.len() && self.children@[s as int].scan().current
                is Some,
            forall|i: int|
                0 <= i < self.children@.len() && (#[trigger] self.children@[i]).scan().current is Some
                    ==> (self.current matches Some(s) && (i == s || self.comparator.less(
                    self.children@[s as int].scan().key(),
                    self.children@[i].scan().key(),
                ))),
        ensures
            self.placed(),
            self.scan().on_least(wanted),
    {
        let sources = self.sources();
        let comparator = self.comparator;
        match self.current {
            None => {
                assert forall|other: Seq<u8>| #[trigger]
                    self.scan().contents.contains_key(other) implies !wanted(other) by {
                    let i = choose|i: int|
                        0 <= i < sources.len() && #[trigger] sources[i].contains_key(other);
                    assert(self.children@[i].scan().on_least(wanted));
                    assert(self.children@[i].scan().contents.contains_key(other));
                }
            },
            Some(s) => {
                let s = s as int;
                let key = self.children@[s].scan().key();
                assert(self.children@[s].scan().on_least(wanted));
                assert(sources[s].contains_key(key));
                lemma_merged(comparator, sources, s, key);
                assert forall|i: int| 0 <= i < self.children@.len() && i != s implies (
                #[trigger] self.children@[i]).scan().after(key) by {
                    let scan = self.children@[i].scan();
                    assert(scan.on_least(wanted));
                    assert forall|x: Seq<u8>| #[trigger]
                        scan.contents.contains_key(x) && comparator.less(key, x) implies wanted(
                        x,
                    ) by {
                        assert(sources[i].contains_key(x));
                    }
                }
                assert forall|other: Seq<u8>| #[trigger]
                    self.scan().contents.contains_key(other) && wanted(other) && other
                        != key implies (self.scan().before)(key, other) by {
                    let i = choose|i: int|
                        0 <= i < sources.len() && #[trigger] sources[i].contains_key(other);
                    let scan = self.children@[i].scan();
                    assert(scan.on_least(wanted));
                    assert(scan.contents.contains_key(other));
                    if i != s {
                        assert(scan.current is Some);
                        let least = scan.key();
                        assert(sources[i].contains_key(least));
                        if least != other {
                            assert(comparator.less(least, other));
                            comparator.less_transitive(key, least, other);
                        }
                    }
                }
            },
        }
    }

    /// Chooses the child with the greatest key.
    #[verifier::spinoff_prover]
    #[verifier::rlimit(40)]
    fn find_largest(&mut self, Ghost(wanted): Ghost<spec_fn(Seq<u8>) -> bool>)
        requires
            old(self).kept(),
            old(self).all_seated(),
            old(self).sound() ==> old(self).all_greatest(wanted) && falling(
                old(self).comparator,
                old(self).sources(),
                wanted,
            ),
        ensures
            final(self).wf(),
            final(self).comparator == old(self).comparator,
            final(self).children == old(self).children,
            old(self).failure is Some ==> final(self).failure is Some,
            old(self).sound() ==> final(self).scan().on_greatest(wanted),
            !final(self).forward(),
            old(self).comparable() ==> picks_greatest(
                final(self).comparator,
                final(self).scans(),
                final(self).at(),
            ),
    {
        let ghost whole = self.sound();
        let ghost sources = self.sources();
        self.direction = Direction::Reverse;
        self.current = None;
        let mut largest: Option<usize> = None;
        let mut index: usize = 0;
        while index < self.children.len()
            invariant
                self.kept(),
                index <= self.children@.len(),
                self.comparator == old(self).comparator,
                self.children == old(self).children,
                self.failure == old(self).failure,
                self.direction == Direction::Reverse,
                self.current is None,
                self.all_seated(),
                whole == self.sound(),
                sources == self.sources(),
                whole ==> self.all_greatest(wanted),
                largest matches Some(l) ==> l < index && self.children@[l as int].scan().current
                    is Some && self.comparator.admits(self.children@[l as int].scan().key()),
                forall|i: int|
                    0 <= i < index && (#[trigger] self.children@[i]).scan().current is Some
                        ==> self.comparator.admits(self.children@[i].scan().key()) && (
                    largest matches Some(l) && (i < l ==> self.comparator.less(
                        self.children@[i].scan().key(),
                        self.children@[l as int].scan().key(),
                    )) && (i > l ==> !self.comparator.less(
                        self.children@[l as int].scan().key(),
                        self.children@[i].scan().key(),
                    ))),
                whole ==> forall|i: int|
                    0 <= i < index && (#[trigger] self.children@[i]).scan().current is Some ==> (
                    largest matches Some(l) && (i == l || self.comparator.less(
                        self.children@[i].scan().key(),
                        self.children@[l as int].scan().key(),
                    ))),
            decreases self.children@.len() - index,
        {
            let child = &self.children[index];
            if child.valid() {
                if !self.comparator.accepts(child.key()) {
                    proof {
                        assert(old(self).scans()[index as int]
                            == self.children@[index as int].scan());
                        if whole {
                            assert(self.children@[index as int].scan().on_greatest(wanted));
                            assert(sources[index as int].contains_key(
                                self.children@[index as int].scan().key(),
                            ));
                        }
                    }
                    self.failure = Some(Status::corruption("MergingIterator: malformed key"));
                    return;
                }
                match largest {
                    None => {
                        largest = Some(index);
                    },
                    Some(l) => {
                        let take = comparator::precedes(
                            &self.comparator,
                            self.children[l].key(),
                            child.key(),
                        );
                        proof {
                            let first = self.children@[l as int].scan().key();
                            let fresh = self.children@[index as int].scan().key();
                            assert forall|i: int|
                                0 <= i < index && (#[trigger] self.children@[i]).scan().current is Some
                                    && self.comparator.less(
                                    first,
                                    fresh,
                                ) implies self.comparator.less(
                                self.children@[i].scan().key(),
                                fresh,
                            ) by {
                                let other = self.children@[i].scan().key();
                                if i < l {
                                    self.comparator.less_transitive(other, first, fresh);
                                } else if i > l {
                                    self.comparator.less_splits(first, other, fresh);
                                }
                            }
                            if whole {
                                let a = self.children@[l as int].scan().key();
                                let b = self.children@[index as int].scan().key();
                                assert(self.children@[l as int].scan().on_greatest(wanted));
                                assert(self.children@[index as int].scan().on_greatest(wanted));
                                assert(sources[l as int].contains_key(a));
                                assert(sources[index as int].contains_key(b));
                                assert(self.comparator.less(a, b) || self.comparator.less(b, a));
                                assert forall|i: int|
                                    0 <= i < index && (
                                    #[trigger] self.children@[i]).scan().current is Some
                                        && self.comparator.less(a, b) implies self.comparator.less(
                                    self.children@[i].scan().key(),
                                    b,
                                ) by {
                                    let c = self.children@[i].scan().key();
                                    assert(self.children@[i].scan().on_greatest(wanted));
                                    assert(sources[i].contains_key(c));
                                    if i != l {
                                        self.comparator.less_transitive(c, a, b);
                                    }
                                }
                            }
                        }
                        if take {
                            largest = Some(index);
                        }
                    },
                }
            }
            index = index + 1;
        }
        self.current = largest;
        proof {
            assert forall|i: int| 0 <= i < self.scans().len() implies #[trigger] self.scans()[i]
                == self.children@[i].scan() by {}
            if whole {
                self.lemma_largest(wanted);
            }
        }
    }

    proof fn lemma_largest(&self, wanted: spec_fn(Seq<u8>) -> bool)
        requires
            self.kept(),
            self.all_seated(),
            self.sound(),
            self.all_greatest(wanted),
            self.direction == Direction::Reverse,
            falling(self.comparator, self.sources(), wanted),
            self.current matches Some(l) ==> l < self.children@.len() && self.children@[l as int].scan().current
                is Some,
            forall|i: int|
                0 <= i < self.children@.len() && (#[trigger] self.children@[i]).scan().current is Some
                    ==> (self.current matches Some(l) && (i == l || self.comparator.less(
                    self.children@[i].scan().key(),
                    self.children@[l as int].scan().key(),
                ))),
        ensures
            self.placed(),
            self.scan().on_greatest(wanted),
    {
        let sources = self.sources();
        let comparator = self.comparator;
        match self.current {
            None => {
                assert forall|other: Seq<u8>| #[trigger]
                    self.scan().contents.contains_key(other) implies !wanted(other) by {
                    let i = choose|i: int|
                        0 <= i < sources.len() && #[trigger] sources[i].contains_key(other);
                    assert(self.children@[i].scan().on_greatest(wanted));
                    assert(self.children@[i].scan().contents.contains_key(other));
                }
            },
            Some(l) => {
                let l = l as int;
                let key = self.children@[l].scan().key();
                assert(self.children@[l].scan().on_greatest(wanted));
                assert(sources[l].contains_key(key));
                lemma_merged(comparator, sources, l, key);
                assert forall|i: int| 0 <= i < self.children@.len() && i != l implies (
                #[trigger] self.children@[i]).scan().ahead_of(key) by {
                    let scan = self.children@[i].scan();
                    assert(scan.on_greatest(wanted));
                    assert forall|x: Seq<u8>| #[trigger]
                        scan.contents.contains_key(x) && comparator.less(x, key) implies wanted(
                        x,
                    ) by {
                        assert(sources[i].contains_key(x));
                    }
                }
                assert forall|other: Seq<u8>| #[trigger]
                    self.scan().contents.contains_key(other) && wanted(other) && other
                        != key implies (self.scan().before)(other, key) by {
                    let i = choose|i: int|
                        0 <= i < sources.len() && #[trigger] sources[i].contains_key(other);
                    let scan = self.children@[i].scan();
                    assert(scan.on_greatest(wanted));
                    assert(scan.contents.contains_key(other));
                    if i != l {
                        assert(scan.current is Some);
                        let most = scan.key();
                        assert(sources[i].contains_key(most));
                        if most != other {
                            assert(comparator.less(other, most));
                            comparator.less_transitive(other, most, key);
                        }
                    }
                }
            },
        }
    }
}

/// What is behind a wanted key is wanted too.
pub open spec fn rising<C: Comparator>(
    comparator: C,
    sources: Seq<Map<Seq<u8>, Seq<u8>>>,
    wanted: spec_fn(Seq<u8>) -> bool,
) -> bool {
    forall|i: int, j: int, a: Seq<u8>, b: Seq<u8>|
        #![trigger sources[i].contains_key(a), sources[j].contains_key(b)]
        0 <= i < sources.len() && 0 <= j < sources.len() && sources[i].contains_key(a)
            && sources[j].contains_key(b) && wanted(a) && comparator.less(a, b) ==> wanted(b)
}

/// What is ahead of a wanted key is wanted too.
pub open spec fn falling<C: Comparator>(
    comparator: C,
    sources: Seq<Map<Seq<u8>, Seq<u8>>>,
    wanted: spec_fn(Seq<u8>) -> bool,
) -> bool {
    forall|i: int, j: int, a: Seq<u8>, b: Seq<u8>|
        #![trigger sources[i].contains_key(a), sources[j].contains_key(b)]
        0 <= i < sources.len() && 0 <= j < sources.len() && sources[i].contains_key(a)
            && sources[j].contains_key(b) && wanted(b) && comparator.less(a, b) ==> wanted(a)
}

/// Where no failure is told, none of the sources tells one.
proof fn lemma_no_failure(scans: Seq<Scan>, from: int)
    requires
        0 <= from <= scans.len(),
    ensures
        first_failure(scans, from) is None == (forall|i: int|
            from <= i < scans.len() ==> (#[trigger] scans[i]).failure is None),
    decreases scans.len() - from,
{
    if from < scans.len() && scans[from].failure is None {
        lemma_no_failure(scans, from + 1);
    }
}

/// What a source holds is in the whole.
proof fn lemma_merged<C: Comparator>(
    comparator: C,
    sources: Seq<Map<Seq<u8>, Seq<u8>>>,
    i: int,
    key: Seq<u8>,
)
    requires
        disjoint(comparator, sources),
        0 <= i < sources.len(),
        sources[i].contains_key(key),
    ensures
        merged(sources).contains_key(key),
        merged(sources)[key] == sources[i][key],
{
    assert(any_has(sources, key));
    let j = choose|j: int| 0 <= j < sources.len() && #[trigger] sources[j].contains_key(key);
    if i != j {
        comparator.less_irreflexive(key);
    }
}

impl<C: Comparator> DbIterator for MergingIterator<C> {
    closed spec fn wf(&self) -> bool {
        self.kept() && self.placed()
    }

    closed spec fn scan(&self) -> Scan {
        Scan {
            contents: merged(self.sources()),
            before: comparator::order_of(self.comparator),
            admits: comparator::short_domain_of(self.comparator),
            intact: self.whole(),
            steady: self.all_steady(),
            current: match self.current {
                None => None,
                Some(at) => self.children@[at as int].scan().current,
            },
            failure: if self.failure is Some {
                self.failure
            } else {
                first_failure(self.scans(), 0)
            },
        }
    }

    fn valid(&self) -> (answer: bool) {
        self.current.is_some()
    }

    #[verifier::spinoff_prover]
    #[verifier::rlimit(40)]
    fn seek_to_first(&mut self)
        ensures
            final(self).order() == old(self).order(),
            same_sources(final(self).scans(), old(self).scans()),
            final(self).scan().current == picked(final(self).scans(), final(self).at()),
            is_at_end(*final(self), true),
    {
        let ghost wanted = |key: Seq<u8>| true;
        let ghost ended = self.ended();
        let mut index: usize = 0;
        while index < self.children.len()
            invariant
                self.kept(),
                self.same_children(old(self)),
                wanted == (|key: Seq<u8>| true),
                index <= self.children@.len(),
                self.failure == old(self).failure,
                ended == old(self).ended(),
                ended matches Some(e) ==> 0 <= e < self.children@.len() && old(
                    self).children@[e].scan().broken() && if e < index {
                    self.children@[e].scan().failure is Some
                } else {
                    self.children@[e] == old(self).children@[e]
                },
                forall|i: int|
                    0 <= i < index && (#[trigger] self.children@[i]).scan().good()
                        ==> self.children@[i].scan().at_first(),
            decreases self.children@.len() - index,
        {
            let ghost earlier = *self;
            self.children[index].seek_to_first();
            proof {
                self.lemma_same(&earlier);
                self.lemma_stays_kept(&earlier, index as int);
            }
            index = index + 1;
        }
        proof {
            self.lemma_same(old(self));
            if keyed(self.comparator, self.scans()) {
                self.lemma_fits();
                assert forall|i: int| 0 <= i < self.scans().len() implies (
                #[trigger] self.scans()[i]).at_first() && is_seated(self.scans()[i]) by {
                    assert(self.children@[i].scan().at_first());
                }
                self.lemma_comparable();
            }
            if self.sound() {
                assert forall|i: int| 0 <= i < self.children@.len() implies (
                #[trigger] self.children@[i]).scan().on_least(wanted) by {
                    assert(self.children@[i].scan().at_first());
                }
            }
        }
        self.find_smallest(Ghost(wanted));
        proof {
            self.lemma_same(old(self));
            self.lemma_told();
            old(self).lemma_told();
        }
    }

    #[verifier::spinoff_prover]
    #[verifier::rlimit(40)]
    fn seek_to_last(&mut self)
        ensures
            final(self).order() == old(self).order(),
            same_sources(final(self).scans(), old(self).scans()),
            final(self).scan().current == picked(final(self).scans(), final(self).at()),
            is_at_end(*final(self), false),
    {
        let ghost wanted = |key: Seq<u8>| true;
        let ghost ended = self.ended();
        let mut index: usize = 0;
        while index < self.children.len()
            invariant
                self.kept(),
                self.same_children(old(self)),
                wanted == (|key: Seq<u8>| true),
                index <= self.children@.len(),
                self.failure == old(self).failure,
                ended == old(self).ended(),
                ended matches Some(e) ==> 0 <= e < self.children@.len() && old(
                    self).children@[e].scan().broken() && if e < index {
                    self.children@[e].scan().failure is Some
                } else {
                    self.children@[e] == old(self).children@[e]
                },
                forall|i: int|
                    0 <= i < index && (#[trigger] self.children@[i]).scan().good()
                        ==> self.children@[i].scan().at_last(),
            decreases self.children@.len() - index,
        {
            let ghost earlier = *self;
            self.children[index].seek_to_last();
            proof {
                self.lemma_same(&earlier);
                self.lemma_stays_kept(&earlier, index as int);
            }
            index = index + 1;
        }
        proof {
            self.lemma_same(old(self));
            if keyed(self.comparator, self.scans()) {
                self.lemma_fits();
                assert forall|i: int| 0 <= i < self.scans().len() implies (
                #[trigger] self.scans()[i]).at_last() && is_seated(self.scans()[i]) by {
                    assert(self.children@[i].scan().at_last());
                }
                self.lemma_comparable();
            }
            if self.sound() {
                assert forall|i: int| 0 <= i < self.children@.len() implies (
                #[trigger] self.children@[i]).scan().on_greatest(wanted) by {
                    assert(self.children@[i].scan().at_last());
                }
            }
        }
        self.find_largest(Ghost(wanted));
        proof {
            self.lemma_same(old(self));
            self.lemma_told();
            old(self).lemma_told();
        }
    }

    #[verifier::spinoff_prover]
    #[verifier::rlimit(40)]
    fn seek(&mut self, target: &[u8])
        ensures
            final(self).order() == old(self).order(),
            same_sources(final(self).scans(), old(self).scans()),
            final(self).scan().current == picked(final(self).scans(), final(self).at()),
            keyed(final(self).order(), final(self).scans()) ==> {
                &&& forall|i: int|
                    0 <= i < final(self).scans().len() ==> (
                    #[trigger] final(self).scans()[i]).at_or_after(target@)
                &&& picks_least(final(self).order(), final(self).scans(), final(self).at())
                &&& final(self).forward()
            },
    {
        let ghost comparator = self.comparator;
        let ghost wanted = |key: Seq<u8>| !comparator.less(key, target@);
        let ghost ended = self.ended();
        let mut index: usize = 0;
        while index < self.children.len()
            invariant
                self.kept(),
                self.same_children(old(self)),
                comparator == self.comparator,
                wanted == (|key: Seq<u8>| !comparator.less(key, target@)),
                comparator::short_domain_of(self.comparator)(target@),
                index <= self.children@.len(),
                self.failure == old(self).failure,
                ended == old(self).ended(),
                ended matches Some(e) ==> 0 <= e < self.children@.len() && old(
                    self).children@[e].scan().broken() && if e < index {
                    self.children@[e].scan().failure is Some
                } else {
                    self.children@[e] == old(self).children@[e]
                },
                forall|i: int|
                    0 <= i < index && (#[trigger] self.children@[i]).scan().good()
                        ==> self.children@[i].scan().at_or_after(target@),
            decreases self.children@.len() - index,
        {
            let ghost earlier = *self;
            assert((self.children@[index as int].scan().admits)(target@));
            self.children[index].seek(target);
            proof {
                self.lemma_same(&earlier);
                self.lemma_stays_kept(&earlier, index as int);
            }
            index = index + 1;
        }
        proof {
            self.lemma_same(old(self));
            if keyed(self.comparator, self.scans()) {
                self.lemma_fits();
                assert forall|i: int| 0 <= i < self.scans().len() implies (
                #[trigger] self.scans()[i]).at_or_after(target@) && is_seated(self.scans()[i]) by {
                    assert(self.children@[i].scan().at_or_after(target@));
                }
                self.lemma_comparable();
            }
            if self.sound() {
                assert forall|i: int| 0 <= i < self.children@.len() implies (
                #[trigger] self.children@[i]).scan().on_least(wanted) by {
                    assert(self.children@[i].scan().at_or_after(target@));
                }
                let sources = self.sources();
                assert forall|i: int, j: int, a: Seq<u8>, b: Seq<u8>|
                    #![trigger sources[i].contains_key(a), sources[j].contains_key(b)]
                    0 <= i < sources.len() && 0 <= j < sources.len() && sources[i].contains_key(a)
                        && sources[j].contains_key(b) && wanted(a) && comparator.less(
                        a,
                        b,
                    ) implies wanted(b) by {
                    if comparator.less(b, target@) {
                        comparator.less_transitive(a, b, target@);
                    }
                }
            }
        }
        self.find_smallest(Ghost(wanted));
        proof {
            self.lemma_same(old(self));
            self.lemma_told();
            old(self).lemma_told();
        }
    }

    #[verifier::spinoff_prover]
    #[verifier::rlimit(60)]
    fn next(&mut self)
        ensures
            final(self).order() == old(self).order(),
            same_sources(final(self).scans(), old(self).scans()),
            final(self).scan().current == picked(final(self).scans(), final(self).at()),
            is_step(*old(self), *final(self), true),
    {
        let cur: usize = match self.current {
            None => {
                return;
            },
            Some(cur) => cur,
        };
        let ghost comparator = self.comparator;
        let ghost ended = self.ended();
        let key = vstd::slice::slice_to_vec(self.children[cur].key());
        let ghost wanted = |x: Seq<u8>| comparator.less(key@, x);
        proof {
            self.lemma_told();
        }
        if self.direction != Direction::Forward {
            if !self.turn_forward(cur, key.as_slice()) {
                proof {
                    self.lemma_same(old(self));
                    self.lemma_told();
                    if keyed(self.order(), self.scans()) && seated(old(self).scans()) {
                        self.lemma_fits();
                        assert(is_seated(old(self).scans()[cur as int]));
                        assert(self.scans()[cur as int].same_source(
                            old(self).scans()[cur as int],
                        ));
                        assert(keys_admitted(comparator, self.scans()[cur as int]));
                    }
                }
                return;
            }
        }
        let ghost earlier = *self;
        self.children[cur].next();
        proof {
            self.lemma_same(&earlier);
            self.lemma_same(old(self));
            self.lemma_stays_kept(&earlier, cur as int);
            self.lemma_same_fits(&earlier);
            if ended is Some {
                let e = ended->0;
                assert(old(self).children@[e].scan().broken());
                assert(earlier.children@[e].scan().broken());
                assert(self.children@[e].scan().failure is Some);
            }
            if keyed(self.comparator, self.scans()) && seated(old(self).scans()) {
                self.lemma_fits();
                assert forall|i: int| 0 <= i < self.scans().len() implies is_seated(
                    #[trigger] self.scans()[i],
                ) && if i == cur || !old(self).forward() {
                    self.scans()[i].after(key@)
                } else {
                    self.scans()[i] == old(self).scans()[i]
                } by {
                    assert(is_seated(old(self).scans()[i]));
                    assert(self.scans()[i].good());
                    if i != cur {
                        assert(self.children@[i] == earlier.children@[i]);
                        assert(earlier.scans()[i] == earlier.children@[i].scan());
                    } else {
                        assert(self.children@[i].scan().after(key@));
                    }
                }
                self.lemma_comparable();
            }
            if self.sound() {
                let sources = self.sources();
                self.lemma_fits();
                assert(self.children@[cur as int].scan().good());
                assert(old(self).children@[cur as int].scan().good());
                assert(is_seated(old(self).children@[cur as int].scan()));
                assert(sources[cur as int].contains_key(key@));
                assert forall|i: int| 0 <= i < self.children@.len() implies (
                #[trigger] self.children@[i]).scan().on_least(wanted) by {
                    if i == cur {
                        assert(self.children@[i].scan().after(key@));
                    } else {
                        assert(self.children@[i] == earlier.children@[i]);
                        assert(earlier.children@[i].scan().good());
                        if old(self).direction == Direction::Forward {
                            assert forall|k: int| 0 <= k < old(self).children@.len() implies (
                            #[trigger] old(self).children@[k]).scan().good() by {
                                assert(self.children@[k].scan().good());
                            }
                            assert(old(self).sound());
                        }
                        assert(earlier.children@[i].scan().after(key@));
                    }
                }
                assert forall|i: int, j: int, a: Seq<u8>, b: Seq<u8>|
                    #![trigger sources[i].contains_key(a), sources[j].contains_key(b)]
                    0 <= i < sources.len() && 0 <= j < sources.len() && sources[i].contains_key(a)
                        && sources[j].contains_key(b) && wanted(a) && comparator.less(
                        a,
                        b,
                    ) implies wanted(b) by {
                    comparator.less_transitive(key@, a, b);
                }
            }
        }
        self.find_smallest(Ghost(wanted));
        proof {
            self.lemma_same(old(self));
            self.lemma_told();
        }
    }

    #[verifier::spinoff_prover]
    #[verifier::rlimit(60)]
    fn prev(&mut self)
        ensures
            final(self).order() == old(self).order(),
            same_sources(final(self).scans(), old(self).scans()),
            final(self).scan().current == picked(final(self).scans(), final(self).at()),
            is_step(*old(self), *final(self), false),
    {
        let cur: usize = match self.current {
            None => {
                return;
            },
            Some(cur) => cur,
        };
        let ghost comparator = self.comparator;
        let ghost ended = self.ended();
        let key = vstd::slice::slice_to_vec(self.children[cur].key());
        let ghost wanted = |x: Seq<u8>| comparator.less(x, key@);
        proof {
            self.lemma_told();
        }
        if self.direction != Direction::Reverse {
            if !self.turn_back(cur, key.as_slice()) {
                proof {
                    self.lemma_same(old(self));
                    self.lemma_told();
                    if keyed(self.order(), self.scans()) && seated(old(self).scans()) {
                        self.lemma_fits();
                        assert(is_seated(old(self).scans()[cur as int]));
                        assert(self.scans()[cur as int].same_source(
                            old(self).scans()[cur as int],
                        ));
                        assert(keys_admitted(comparator, self.scans()[cur as int]));
                    }
                }
                return;
            }
        }
        let ghost earlier = *self;
        self.children[cur].prev();
        proof {
            self.lemma_same(&earlier);
            self.lemma_same(old(self));
            self.lemma_stays_kept(&earlier, cur as int);
            self.lemma_same_fits(&earlier);
            if ended is Some {
                let e = ended->0;
                assert(old(self).children@[e].scan().broken());
                assert(earlier.children@[e].scan().broken());
                assert(self.children@[e].scan().failure is Some);
            }
            if keyed(self.comparator, self.scans()) && seated(old(self).scans()) {
                self.lemma_fits();
                assert forall|i: int| 0 <= i < self.scans().len() implies is_seated(
                    #[trigger] self.scans()[i],
                ) && if i == cur || old(self).forward() {
                    self.scans()[i].ahead_of(key@)
                } else {
                    self.scans()[i] == old(self).scans()[i]
                } by {
                    assert(is_seated(old(self).scans()[i]));
                    assert(self.scans()[i].good());
                    if i != cur {
                        assert(self.children@[i] == earlier.children@[i]);
                        assert(earlier.scans()[i] == earlier.children@[i].scan());
                    } else {
                        assert(self.children@[i].scan().ahead_of(key@));
                    }
                }
                self.lemma_comparable();
            }
            if self.sound() {
                let sources = self.sources();
                self.lemma_fits();
                assert(self.children@[cur as int].scan().good());
                assert(old(self).children@[cur as int].scan().good());
                assert(is_seated(old(self).children@[cur as int].scan()));
                assert(sources[cur as int].contains_key(key@));
                assert forall|i: int| 0 <= i < self.children@.len() implies (
                #[trigger] self.children@[i]).scan().on_greatest(wanted) by {
                    if i == cur {
                        assert(self.children@[i].scan().ahead_of(key@));
                    } else {
                        assert(self.children@[i] == earlier.children@[i]);
                        assert(earlier.children@[i].scan().good());
                        if old(self).direction == Direction::Reverse {
                            assert forall|k: int| 0 <= k < old(self).children@.len() implies (
                            #[trigger] old(self).children@[k]).scan().good() by {
                                assert(self.children@[k].scan().good());
                            }
                            assert(old(self).sound());
                        }
                        assert(earlier.children@[i].scan().ahead_of(key@));
                    }
                }
                assert forall|i: int, j: int, a: Seq<u8>, b: Seq<u8>|
                    #![trigger sources[i].contains_key(a), sources[j].contains_key(b)]
                    0 <= i < sources.len() && 0 <= j < sources.len() && sources[i].contains_key(a)
                        && sources[j].contains_key(b) && wanted(b) && comparator.less(
                        a,
                        b,
                    ) implies wanted(a) by {
                    comparator.less_transitive(a, b, key@);
                }
            }
        }
        self.find_largest(Ghost(wanted));
        proof {
            self.lemma_same(old(self));
            self.lemma_told();
        }
    }

    fn key(&self) -> (key: &[u8]) {
        match self.current {
            None => {
                assert(false);
                &[]
            },
            Some(at) => self.children[at].key(),
        }
    }

    fn value(&self) -> (value: &[u8]) {
        match self.current {
            None => {
                assert(false);
                &[]
            },
            Some(at) => self.children[at].value(),
        }
    }

    fn status(&self) -> (outcome: status::Result<()>) {
        match &self.failure {
            Some(error) => {
                return Err(error.clone());
            },
            None => {},
        }
        let mut index: usize = 0;
        while index < self.children.len()
            invariant
                self.kept(),
                self.failure is None,
                index <= self.children@.len(),
                first_failure(self.scans(), 0) == first_failure(self.scans(), index as int),
            decreases self.children@.len() - index,
        {
            assert(self.scans()[index as int] == self.children@[index as int].scan());
            match self.children[index].status() {
                Err(error) => {
                    return Err(error);
                },
                Ok(_) => {},
            }
            index = index + 1;
        }
        Ok(())
    }
}

impl<C: Comparator> MergingIterator<C> {
    /// Whether all children can seek a key.
    fn can_seek(&self, key: &[u8]) -> (answer: bool)
        ensures
            answer == comparator::short_domain_of(self.comparator)(key@),
    {
        self.comparator.accepts(key) && comparator::is_short(key)
    }

    /// Puts all children but the current one right behind its key.
    #[verifier::spinoff_prover]
    #[verifier::rlimit(60)]
    fn turn_forward(&mut self, cur: usize, key: &[u8]) -> (turned: bool)
        requires
            old(self).wf(),
            old(self).current == Some(cur),
            key@ == old(self).children@[cur as int].scan().key(),
        ensures
            final(self).kept(),
            final(self).same_children(old(self)),
            old(self).failure is Some ==> final(self).failure is Some,
            old(self).ended() matches Some(e) ==> final(self).children@[e].scan().failure is Some,
            turned ==> {
                &&& final(self).wf()
                &&& final(self).current == old(self).current
                &&& final(self).children@[cur as int] == old(self).children@[cur as int]
                &&& final(self).direction == Direction::Forward
                &&& final(self).fits() ==> forall|i: int|
                    0 <= i < final(self).children@.len() && i != cur && (
                    #[trigger] final(self).children@[i]).scan().good()
                        ==> final(self).children@[i].scan().after(key@)
            },
            !turned ==> {
                &&& final(self).failure is Some
                &&& final(self).current is None
                &&& final(self).fits() && comparator::short_domain_of(final(self).comparator)(key@)
                    ==> !final(self).all_good()
            },
    {
        let ghost comparator = self.comparator;
        let ghost ended = self.ended();
        let ghost fit = self.fits();
        if !self.can_seek(key) {
            proof {
                if self.safe() {
                    self.lemma_fits();
                    assert(self.children@[cur as int].scan().good());
                    assert(is_seated(self.children@[cur as int].scan()));
                    assert(self.sources()[cur as int].contains_key(key@));
                }
            }
            self.failure = Some(Status::corruption("MergingIterator: malformed key"));
            self.current = None;
            return false;
        }
        let mut index: usize = 0;
        while index < self.children.len()
            invariant
                self.kept(),
                self.same_children(old(self)),
                cur < self.children@.len(),
                self.children@[cur as int] == old(self).children@[cur as int],
                self.current == Some(cur),
                self.failure == old(self).failure,
                key@ == self.children@[cur as int].scan().key(),
                self.children@[cur as int].scan().current is Some,
                self.all_seated(),
                comparator == self.comparator,
                comparator::short_domain_of(comparator)(key@),
                fit == self.fits(),
                ended == old(self).ended(),
                ended matches Some(e) ==> 0 <= e < self.children@.len()
                    && self.children@[e].scan().broken(),
                index <= self.children@.len(),
                fit ==> forall|i: int|
                    0 <= i < index && i != cur && (#[trigger] self.children@[i]).scan().good()
                        ==> self.children@[i].scan().after(key@),
            decreases self.children@.len() - index,
        {
            if index != cur {
                let ghost earlier = *self;
                assert((self.children@[index as int].scan().admits)(key@));
                self.children[index].seek(key);
                let ghost found = self.children@[index as int].scan();
                let ghost middle = *self;
                proof {
                    self.lemma_same(&earlier);
                    self.lemma_stays_kept(&earlier, index as int);
                    self.lemma_same_fits(&earlier);
                }
                if self.children[index].valid() {
                    if !self.comparator.accepts(self.children[index].key()) {
                        proof {
                            self.lemma_same(old(self));
                            if self.safe() || self.all_good() && fit {
                                self.lemma_fits();
                                assert(self.children@[index as int].scan().good());
                                assert(keys_admitted(comparator, found));
                                assert(found.contents.contains_key(found.key()));
                            }
                        }
                        self.failure = Some(Status::corruption("MergingIterator: malformed key"));
                        self.current = None;
                        return false;
                    }
                    if comparator::equivalent(
                        &self.comparator,
                        key,
                        self.children[index].key(),
                    ) {
                        self.children[index].next();
                        proof {
                            self.lemma_same(&middle);
                            self.lemma_stays_kept(&middle, index as int);
                            self.lemma_same_fits(&middle);
                            if fit && self.children@[index as int].scan().good() {
                                assert(keys_admitted(comparator, self.children@[index as int].scan()));
                                lemma_past_equal(
                                    comparator,
                                    found,
                                    self.children@[index as int].scan(),
                                    key@,
                                );
                            }
                        }
                    }
                }
                proof {
                    if fit && found.good() {
                        assert(keys_admitted(comparator, found));
                        lemma_past(comparator, found, key@);
                    }
                }
            }
            index = index + 1;
        }
        proof {
            self.lemma_same(old(self));
            if self.sound() {
                self.lemma_fits();
            }
        }
        self.direction = Direction::Forward;
        true
    }

    /// Puts all children but the current one right ahead of its key.
    #[verifier::spinoff_prover]
    #[verifier::rlimit(60)]
    fn turn_back(&mut self, cur: usize, key: &[u8]) -> (turned: bool)
        requires
            old(self).wf(),
            old(self).current == Some(cur),
            key@ == old(self).children@[cur as int].scan().key(),
        ensures
            final(self).kept(),
            final(self).same_children(old(self)),
            old(self).failure is Some ==> final(self).failure is Some,
            old(self).ended() matches Some(e) ==> final(self).children@[e].scan().failure is Some,
            turned ==> {
                &&& final(self).wf()
                &&& final(self).current == old(self).current
                &&& final(self).children@[cur as int] == old(self).children@[cur as int]
                &&& final(self).direction == Direction::Reverse
                &&& final(self).fits() ==> forall|i: int|
                    0 <= i < final(self).children@.len() && i != cur && (
                    #[trigger] final(self).children@[i]).scan().good()
                        ==> final(self).children@[i].scan().ahead_of(key@)
            },
            !turned ==> {
                &&& final(self).failure is Some
                &&& final(self).current is None
                &&& final(self).fits() && comparator::short_domain_of(final(self).comparator)(key@)
                    ==> !final(self).all_good()
            },
    {
        let ghost comparator = self.comparator;
        let ghost ended = self.ended();
        let ghost fit = self.fits();
        if !self.can_seek(key) {
            proof {
                if self.safe() {
                    self.lemma_fits();
                    assert(self.children@[cur as int].scan().good());
                    assert(is_seated(self.children@[cur as int].scan()));
                    assert(self.sources()[cur as int].contains_key(key@));
                }
            }
            self.failure = Some(Status::corruption("MergingIterator: malformed key"));
            self.current = None;
            return false;
        }
        let mut index: usize = 0;
        while index < self.children.len()
            invariant
                self.kept(),
                self.same_children(old(self)),
                cur < self.children@.len(),
                self.children@[cur as int] == old(self).children@[cur as int],
                self.current == Some(cur),
                self.failure == old(self).failure,
                key@ == self.children@[cur as int].scan().key(),
                self.children@[cur as int].scan().current is Some,
                self.all_seated(),
                comparator == self.comparator,
                comparator::short_domain_of(comparator)(key@),
                fit == self.fits(),
                ended == old(self).ended(),
                ended matches Some(e) ==> 0 <= e < self.children@.len()
                    && self.children@[e].scan().broken(),
                index <= self.children@.len(),
                fit ==> forall|i: int|
                    0 <= i < index && i != cur && (#[trigger] self.children@[i]).scan().good()
                        ==> self.children@[i].scan().ahead_of(key@),
            decreases self.children@.len() - index,
        {
            if index != cur {
                let ghost earlier = *self;
                assert((self.children@[index as int].scan().admits)(key@));
                self.children[index].seek(key);
                let ghost found = self.children@[index as int].scan();
                let ghost middle = *self;
                proof {
                    self.lemma_same(&earlier);
                    self.lemma_stays_kept(&earlier, index as int);
                    self.lemma_same_fits(&earlier);
                }
                if self.children[index].valid() {
                    self.children[index].prev();
                } else {
                    self.children[index].seek_to_last();
                }
                proof {
                    self.lemma_same(&middle);
                    self.lemma_stays_kept(&middle, index as int);
                    self.lemma_same_fits(&middle);
                    if fit && self.children@[index as int].scan().good() {
                        assert(found.good());
                        assert(keys_admitted(comparator, found));
                        lemma_back_from(
                            comparator,
                            found,
                            self.children@[index as int].scan(),
                            key@,
                        );
                    }
                }
            }
            index = index + 1;
        }
        proof {
            self.lemma_same(old(self));
            if self.sound() {
                self.lemma_fits();
            }
        }
        self.direction = Direction::Reverse;
        true
    }
}

/// What stands on the first entry from a key on stands right behind the key, unless that
/// entry is as good as the key.
proof fn lemma_past<C: Comparator>(comparator: C, scan: Scan, key: Seq<u8>)
    requires
        scan.before == comparator::order_of(comparator),
        keys_admitted(comparator, scan),
        comparator.admits(key),
        scan.at_or_after(key),
    ensures
        scan.current is None ==> scan.after(key),
        scan.current is Some && comparator.less(key, scan.key()) ==> scan.after(key),
{
    assert forall|x: Seq<u8>| #[trigger]
        scan.contents.contains_key(x) && comparator.less(key, x) implies !comparator.less(
        x,
        key,
    ) by {
        if comparator.less(x, key) {
            comparator.less_transitive(key, x, key);
            comparator.less_irreflexive(key);
        }
    }
}

/// A step on from an entry that is as good as a key leads right behind the key.
proof fn lemma_past_equal<C: Comparator>(
    comparator: C,
    earlier: Scan,
    later: Scan,
    key: Seq<u8>,
)
    requires
        earlier.before == comparator::order_of(comparator),
        keys_admitted(comparator, earlier),
        comparator.admits(key),
        earlier.current is Some,
        comparator.admits(earlier.key()),
        !comparator.less(key, earlier.key()),
        !comparator.less(earlier.key(), key),
        later.same_source(earlier),
        later.after(earlier.key()),
    ensures
        later.after(key),
{
    let found = earlier.key();
    assert forall|x: Seq<u8>| #[trigger] later.contents.contains_key(x) implies comparator.less(
        key,
        x,
    ) == comparator.less(found, x) by {
        assert(earlier.contents.contains_key(x));
        if comparator.less(key, x) {
            comparator.less_splits(key, found, x);
        }
        if comparator.less(found, x) {
            comparator.less_splits(found, key, x);
        }
    }
}

/// A step back from the first entry from a key on leads right ahead of the key, and so does
/// the last entry where there is none from the key on.
proof fn lemma_back_from<C: Comparator>(
    comparator: C,
    earlier: Scan,
    later: Scan,
    key: Seq<u8>,
)
    requires
        earlier.before == comparator::order_of(comparator),
        keys_admitted(comparator, earlier),
        comparator.admits(key),
        earlier.at_or_after(key),
        later.same_source(earlier),
        earlier.current is Some ==> later.ahead_of(earlier.key()),
        earlier.current is None ==> later.at_last(),
    ensures
        later.ahead_of(key),
{
    if earlier.current is Some {
        let found = earlier.key();
        assert(earlier.contents.contains_key(found));
        assert forall|x: Seq<u8>| #[trigger] later.contents.contains_key(x) implies comparator.less(
            x,
            key,
        ) == comparator.less(x, found) by {
            assert(earlier.contents.contains_key(x));
            if comparator.less(x, key) {
                comparator.less_splits(x, found, key);
            }
            if comparator.less(x, found) && !comparator.less(x, key) {
                if x != found {
                    assert(comparator.less(found, x));
                    comparator.less_transitive(x, found, x);
                }
                comparator.less_irreflexive(x);
            }
        }
    }
}

/// Of two keys of a source one is before the other.
pub open spec fn in_rows<C: Comparator>(comparator: C, scans: Seq<Scan>) -> bool {
    forall|i: int| 0 <= i < scans.len() ==> in_row(comparator, #[trigger] scans[i])
}

/// Of two keys of a source one is before the other, in the order of a comparator.
pub open spec fn in_row<C: Comparator>(comparator: C, scan: Scan) -> bool {
    &&& scan.before == comparator::order_of(comparator)
    &&& forall|a: Seq<u8>, b: Seq<u8>|
        #![trigger scan.contents.contains_key(a), scan.contents.contains_key(b)]
        scan.contents.contains_key(a) && scan.contents.contains_key(b) && a != b
            ==> comparator.less(a, b) || comparator.less(b, a)
}

/// Whether a source has an entry.
pub open spec fn has_entry(scan: Scan, entry: db_iterator::Pair) -> bool {
    scan.contents.contains_key(entry.0) && scan.contents[entry.0] == entry.1
}

/// How many of the sources have an entry.
pub open spec fn count_in(scans: Seq<Scan>, entry: db_iterator::Pair) -> nat
    decreases scans.len(),
{
    if scans.len() == 0 {
        0
    } else {
        count_in(scans.drop_last(), entry) + if has_entry(scans.last(), entry) {
            1nat
        } else {
            0nat
        }
    }
}

/// Whether an entry of a source is still to come, going on or going back.
pub open spec fn is_to_come(scan: Scan, entry: db_iterator::Pair, forward: bool) -> bool {
    has_entry(scan, entry) && match scan.current {
        None => false,
        Some((key, _)) => if forward {
            !(scan.before)(entry.0, key)
        } else {
            !(scan.before)(key, entry.0)
        },
    }
}

/// In how many of the sources an entry is still to come.
pub open spec fn count_to_come(
    scans: Seq<Scan>,
    entry: db_iterator::Pair,
    forward: bool,
) -> nat
    decreases scans.len(),
{
    if scans.len() == 0 {
        0
    } else {
        count_to_come(scans.drop_last(), entry, forward) + if is_to_come(
            scans.last(),
            entry,
            forward,
        ) {
            1nat
        } else {
            0nat
        }
    }
}

/// A merge in one direction: where the sources stand after each step, and which of them is
/// chosen.
pub struct Course {
    pub stands: Seq<Seq<Scan>>,
    pub picks: Seq<Option<int>>,
}

impl Course {
    /// The entries that the merge stood on, one after the other.
    pub open spec fn entries(self) -> Seq<db_iterator::Pair> {
        Seq::new(
            (self.stands.len() - 1) as nat,
            |k: int| picked(self.stands[k], self.picks[k])->0,
        )
    }

    /// The merge starts at one end and goes on to the other, as the iterator does.
    pub open spec fn runs<C: Comparator>(self, comparator: C, forward: bool) -> bool {
        let steps = self.stands.len() - 1;
        &&& self.stands.len() == self.picks.len()
        &&& steps >= 0
        &&& forall|k: int| 0 <= k <= steps ==> keyed(comparator, #[trigger] self.stands[k])
        &&& in_rows(comparator, self.stands[0])
        &&& forall|i: int|
            0 <= i < self.stands[0].len() ==> if forward {
                (#[trigger] self.stands[0][i]).at_first()
            } else {
                self.stands[0][i].at_last()
            }
        &&& forall|k: int|
            0 <= k <= steps ==> if forward {
                picks_least(comparator, #[trigger] self.stands[k], self.picks[k])
            } else {
                picks_greatest(comparator, self.stands[k], self.picks[k])
            }
        &&& forall|k: int|
            0 <= k < steps ==> self.picks[k] is Some && #[trigger] self.steps_to(k, forward)
        &&& self.picks[steps] is None
    }

    /// The step from one stand to the next.
    pub open spec fn steps_to(self, k: int, forward: bool) -> bool {
        if forward {
            stepped_on(self.stands[k], self.picks[k]->0, true, self.stands[k + 1])
        } else {
            stepped_back(self.stands[k], self.picks[k]->0, false, self.stands[k + 1])
        }
    }
}

/// Where the sources stand on entries, all that is said of them stays so in a step.
proof fn lemma_stand<C: Comparator>(comparator: C, course: Course, forward: bool, k: int)
    requires
        course.runs(comparator, forward),
        0 <= k < course.stands.len(),
    ensures
        keyed(comparator, course.stands[k]),
        in_rows(comparator, course.stands[k]),
        seated(course.stands[k]),
        same_sources(course.stands[k], course.stands[0]),
    decreases k,
{
    if k == 0 {
        let scans = course.stands[0];
        assert forall|i: int| 0 <= i < scans.len() implies is_seated(#[trigger] scans[i]) by {
            assert(if forward {
                scans[i].at_first()
            } else {
                scans[i].at_last()
            });
        }
    } else {
        lemma_stand(comparator, course, forward, k - 1);
        assert(course.steps_to(k - 1, forward));
        let earlier = course.stands[k - 1];
        let later = course.stands[k];
        assert forall|i: int| 0 <= i < later.len() implies is_seated(#[trigger] later[i])
            && in_row(comparator, later[i]) && later[i].same_source(course.stands[0][i]) by {
            assert(later[i].same_source(earlier[i]));
            assert(is_seated(earlier[i]));
            assert(in_row(comparator, earlier[i]));
            assert(earlier[i].same_source(course.stands[0][i]));
        }
    }
}

/// A step takes the entry that it was on out of those to come, and no other.
proof fn lemma_step_takes<C: Comparator>(
    comparator: C,
    earlier: Scan,
    later: Scan,
    entry: db_iterator::Pair,
    forward: bool,
)
    requires
        in_row(comparator, earlier),
        keys_admitted(comparator, earlier),
        is_seated(earlier),
        earlier.current is Some,
        later.same_source(earlier),
        forward ==> later.after(earlier.key()),
        !forward ==> later.ahead_of(earlier.key()),
    ensures
        is_to_come(earlier, entry, forward) == (is_to_come(later, entry, forward) || earlier.current
            == Some(entry)),
        !(is_to_come(later, entry, forward) && earlier.current == Some(entry)),
{
    let key = earlier.key();
    assert(earlier.contents.contains_key(key));
    comparator.less_irreflexive(key);
    if has_entry(earlier, entry) {
        let x = entry.0;
        assert(later.contents.contains_key(x));
        if comparator.less(key, x) && comparator.less(x, key) {
            comparator.less_transitive(key, x, key);
        }
        match later.current {
            None => {},
            Some((next, _)) => {
                assert(later.contents.contains_key(next));
                comparator.less_irreflexive(next);
                if forward {
                    assert(comparator.less(key, next));
                    if comparator.less(x, next) && comparator.less(key, x) && x != next {
                        assert(comparator.less(next, x));
                        comparator.less_transitive(x, next, x);
                        comparator.less_irreflexive(x);
                    }
                    if comparator.less(x, key) {
                        comparator.less_transitive(x, key, next);
                    }
                } else {
                    assert(comparator.less(next, key));
                    if comparator.less(next, x) && comparator.less(x, key) && x != next {
                        assert(comparator.less(x, next));
                        comparator.less_transitive(x, next, x);
                        comparator.less_irreflexive(x);
                    }
                    if comparator.less(key, x) {
                        comparator.less_transitive(next, key, x);
                    }
                }
            },
        }
    }
}

/// Where one source takes a step, one entry less is to come.
proof fn lemma_count_step(
    earlier: Seq<Scan>,
    later: Seq<Scan>,
    at: int,
    entry: db_iterator::Pair,
    forward: bool,
)
    requires
        earlier.len() == later.len(),
        forall|i: int|
            0 <= i < later.len() && i != at ==> #[trigger] later[i] == earlier[i],
        0 <= at < later.len() ==> is_to_come(earlier[at], entry, forward) == (is_to_come(
            later[at],
            entry,
            forward,
        ) || earlier[at].current == Some(entry)) && !(is_to_come(later[at], entry, forward)
            && earlier[at].current == Some(entry)),
    ensures
        count_to_come(earlier, entry, forward) == count_to_come(later, entry, forward) + if 0 <= at
            < later.len() && earlier[at].current == Some(entry) {
            1nat
        } else {
            0nat
        },
    decreases later.len(),
{
    if later.len() > 0 {
        let last = later.len() - 1;
        assert forall|i: int|
            0 <= i < later.drop_last().len() && i != at implies #[trigger] later.drop_last()[i]
            == earlier.drop_last()[i] by {
            assert(later[i] == earlier[i]);
        }
        lemma_count_step(earlier.drop_last(), later.drop_last(), at, entry, forward);
        if at != last {
            assert(later[last] == earlier[last]);
        }
    }
}

/// What was stood on and what is to come are all entries.
proof fn lemma_counts<C: Comparator>(
    comparator: C,
    course: Course,
    forward: bool,
    entry: db_iterator::Pair,
    k: int,
)
    requires
        course.runs(comparator, forward),
        0 <= k < course.stands.len(),
    ensures
        course.entries().take(k).to_multiset().count(entry) + count_to_come(
            course.stands[k],
            entry,
            forward,
        ) == count_to_come(course.stands[0], entry, forward),
    decreases k,
{
    let entries = course.entries();
    entries.take(k).to_multiset_ensures();
    if k == 0 {
        assert(entries.take(0).len() == 0);
        assert(entries.take(0).to_multiset().len() == 0);
    } else {
        lemma_counts(comparator, course, forward, entry, k - 1);
        lemma_stand(comparator, course, forward, k - 1);
        assert(course.steps_to(k - 1, forward));
        let earlier = course.stands[k - 1];
        let later = course.stands[k];
        let at = course.picks[k - 1]->0;
        assert(if forward {
            picks_least(comparator, earlier, course.picks[k - 1])
        } else {
            picks_greatest(comparator, earlier, course.picks[k - 1])
        });
        assert(is_seated(earlier[at]));
        assert(in_row(comparator, earlier[at]));
        assert(keys_admitted(comparator, earlier[at]));
        assert(later[at].same_source(earlier[at]));
        lemma_step_takes(comparator, earlier[at], later[at], entry, forward);
        lemma_count_step(earlier, later, at, entry, forward);
        let front = entries.take(k - 1);
        front.to_multiset_ensures();
        assert(entries.take(k) =~= front.push(entries[k - 1]));
        assert(entries[k - 1] == earlier[at].current->0);
        assert(entries.take(k).to_multiset() =~= front.to_multiset().insert(entries[k - 1]));
    }
}

/// At the start all entries are to come, at the end none is.
proof fn lemma_ends(scans: Seq<Scan>, entry: db_iterator::Pair, forward: bool)
    ensures
        (forall|i: int|
            0 <= i < scans.len() ==> if forward {
                (#[trigger] scans[i]).at_first()
            } else {
                scans[i].at_last()
            }) && (forall|i: int, a: Seq<u8>|
            0 <= i < scans.len() && #[trigger] scans[i].contents.contains_key(a)
                ==> !(#[trigger] (scans[i].before)(a, a))) && (forall|i: int, a: Seq<u8>, b: Seq<u8>|
            0 <= i < scans.len() && scans[i].contents.contains_key(a)
                && scans[i].contents.contains_key(b) && #[trigger] (scans[i].before)(a, b)
                ==> !(scans[i].before)(b, a)) ==> count_to_come(scans, entry, forward) == count_in(
            scans,
            entry,
        ),
        (forall|i: int| 0 <= i < scans.len() ==> (#[trigger] scans[i]).current is None)
            ==> count_to_come(scans, entry, forward) == 0,
    decreases scans.len(),
{
    if scans.len() > 0 {
        let front = scans.drop_last();
        lemma_ends(front, entry, forward);
        assert(forall|i: int| 0 <= i < front.len() ==> #[trigger] front[i] == scans[i]);
        assert(scans.last() == scans[scans.len() - 1]);
    }
}

/// The keys of a merge never go back, and never skip what is as good as another.
proof fn lemma_row<C: Comparator>(
    comparator: C,
    course: Course,
    forward: bool,
    j: int,
    k: int,
)
    requires
        course.runs(comparator, forward),
        0 <= j < k < course.entries().len(),
    ensures
        comparator.admits(course.entries()[j].0),
        comparator.admits(course.entries()[k].0),
        forward ==> !comparator.less(course.entries()[k].0, course.entries()[j].0),
        !forward ==> !comparator.less(course.entries()[j].0, course.entries()[k].0),
    decreases k - j,
{
    let entries = course.entries();
    if j + 1 < k {
        lemma_row(comparator, course, forward, j, k - 1);
        lemma_row(comparator, course, forward, k - 1, k);
        let (a, b, c) = (entries[j].0, entries[k - 1].0, entries[k].0);
        if forward && comparator.less(c, a) {
            comparator.less_splits(c, b, a);
        }
        if !forward && comparator.less(a, c) {
            comparator.less_splits(a, b, c);
        }
    } else {
        lemma_stand(comparator, course, forward, j);
        lemma_stand(comparator, course, forward, k);
        assert(course.steps_to(j, forward));
        assert(course.steps_to(k, forward));
        let earlier = course.stands[j];
        let later = course.stands[k];
        let from = course.picks[j]->0;
        let to = course.picks[k]->0;
        assert(if forward {
            picks_least(comparator, earlier, course.picks[j])
        } else {
            picks_greatest(comparator, earlier, course.picks[j])
        });
        assert(if forward {
            picks_least(comparator, later, course.picks[k])
        } else {
            picks_greatest(comparator, later, course.picks[k])
        });
        let a = earlier[from].key();
        let b = later[to].key();
        assert(is_seated(earlier[from]));
        assert(is_seated(later[to]));
        assert(keys_admitted(comparator, earlier[from]));
        assert(keys_admitted(comparator, later[to]));
        assert(earlier[from].contents.contains_key(a));
        assert(later[to].contents.contains_key(b));
        assert(in_row(comparator, later[to]));
        if to != from {
            assert(later[to] == earlier[to]);
            assert(is_seated(earlier[to]));
        }
        if comparator.less(a, b) && comparator.less(b, a) {
            comparator.less_transitive(a, b, a);
            comparator.less_irreflexive(a);
        }
    }
}

/// A merge from one end to the other stands on every entry of every source, as often as
/// there are sources that have it, and on no others. Its keys never go back, also where
/// sources have keys that are as good as each other.
pub proof fn law_merge_is_whole<C: Comparator>(comparator: C, course: Course, forward: bool)
    requires
        course.runs(comparator, forward),
    ensures
        forall|entry: db_iterator::Pair|
            #[trigger] course.entries().to_multiset().count(entry) == count_in(
                course.stands[0],
                entry,
            ),
        forall|j: int, k: int|
            0 <= j < k < course.entries().len() ==> if forward {
                !comparator.less(#[trigger] course.entries()[k].0, #[trigger] course.entries()[j].0)
            } else {
                !comparator.less(course.entries()[j].0, course.entries()[k].0)
            },
{
    let last = course.stands.len() - 1;
    let entries = course.entries();
    assert forall|entry: db_iterator::Pair| #[trigger]
        entries.to_multiset().count(entry) == count_in(course.stands[0], entry) by {
        lemma_counts(comparator, course, forward, entry, last);
        assert(entries.take(last) =~= entries);
        let first = course.stands[0];
        assert forall|i: int, a: Seq<u8>|
            0 <= i < first.len() && #[trigger] first[i].contents.contains_key(a) implies !(
        #[trigger] (first[i].before)(a, a)) by {
            assert(in_row(comparator, first[i]));
            assert(keys_admitted(comparator, first[i]));
            comparator.less_irreflexive(a);
        }
        assert forall|i: int, a: Seq<u8>, b: Seq<u8>|
            0 <= i < first.len() && first[i].contents.contains_key(a)
                && first[i].contents.contains_key(b) && #[trigger] (first[i].before)(
                a,
                b,
            ) implies !(first[i].before)(b, a) by {
            assert(in_row(comparator, first[i]));
            assert(keys_admitted(comparator, first[i]));
            if comparator.less(b, a) {
                comparator.less_transitive(a, b, a);
                comparator.less_irreflexive(a);
            }
        }
        lemma_ends(first, entry, forward);
        assert(if forward {
            picks_least(comparator, course.stands[last], course.picks[last])
        } else {
            picks_greatest(comparator, course.stands[last], course.picks[last])
        });
        lemma_ends(course.stands[last], entry, forward);
    }
    assert forall|j: int, k: int|
        0 <= j < k < entries.len() implies if forward {
        !comparator.less(#[trigger] entries[k].0, #[trigger] entries[j].0)
    } else {
        !comparator.less(entries[j].0, entries[k].0)
    } by {
        lemma_row(comparator, course, forward, j, k);
    }
}

/// The step from one state of an iterator to the next.
pub open spec fn steps_from<C: Comparator>(
    states: Seq<MergingIterator<C>>,
    k: int,
    forward: bool,
) -> bool {
    states[k].scan().current is Some && is_step(states[k], states[k + 1], forward)
}

/// Whether an iterator was in the given states one after the other: it was moved to one end,
/// and then on, step by step, until it stood nowhere. Nothing went wrong with its sources.
pub open spec fn is_pass<C: Comparator>(states: Seq<MergingIterator<C>>, forward: bool) -> bool {
    let last = states.len() - 1;
    &&& states.len() > 0
    &&& is_at_end(states[0], forward)
    &&& in_rows(states[0].order(), states[0].scans())
    &&& forall|k: int|
        0 <= k <= last ==> {
            &&& (#[trigger] states[k]).wf()
            &&& states[k].order() == states[0].order()
            &&& keyed(states[k].order(), states[k].scans())
        }
    &&& forall|k: int| 0 <= k < last ==> #[trigger] steps_from(states, k, forward)
    &&& states[last].scan().current is None
}

/// The entries that an iterator stood on in its states but the last.
pub open spec fn entries_passed<C: Comparator>(
    states: Seq<MergingIterator<C>>,
) -> Seq<db_iterator::Pair> {
    Seq::new((states.len() - 1) as nat, |k: int| states[k].scan().current->0)
}

/// An iterator that is moved from one end to the other stands on every entry of every source,
/// as often as there are sources that have it, and on no others, and its keys never go back.
/// One without sources never stands on anything.
#[verifier::spinoff_prover]
#[verifier::rlimit(40)]
pub proof fn law_pass_is_whole<C: Comparator>(states: Seq<MergingIterator<C>>, forward: bool)
    requires
        is_pass(states, forward),
    ensures
        forall|entry: db_iterator::Pair|
            #[trigger] entries_passed(states).to_multiset().count(entry) == count_in(
                states[0].scans(),
                entry,
            ),
        forall|j: int, k: int|
            0 <= j < k < entries_passed(states).len() ==> if forward {
                !states[0].order().less(
                    #[trigger] entries_passed(states)[k].0,
                    #[trigger] entries_passed(states)[j].0,
                )
            } else {
                !states[0].order().less(entries_passed(states)[j].0, entries_passed(states)[k].0)
            },
        states[0].scans().len() == 0 ==> states.len() == 1,
{
    let comparator = states[0].order();
    let course = course_of(states);
    lemma_course_runs(states, forward);
    law_merge_is_whole(comparator, course, forward);
    assert(course.entries() =~= entries_passed(states)) by {
        assert forall|k: int| 0 <= k < states.len() - 1 implies #[trigger] course.entries()[k]
            == entries_passed(states)[k] by {
            lemma_course_at(states, forward, k);
        }
    }
    if states[0].scans().len() == 0 && states.len() > 1 {
        assert(states[0].wf());
        states[0].lemma_scan();
        states[0].lemma_at();
        assert(steps_from(states, 0, forward));
    }
}

/// Where the sources of an iterator stood in its states, and which of them was chosen.
spec fn course_of<C: Comparator>(states: Seq<MergingIterator<C>>) -> Course {
    Course {
        stands: Seq::new(states.len(), |k: int| states[k].scans()),
        picks: Seq::new(states.len(), |k: int| states[k].at()),
    }
}

proof fn lemma_course_at<C: Comparator>(states: Seq<MergingIterator<C>>, forward: bool, k: int)
    requires
        is_pass(states, forward),
        0 <= k < states.len(),
    ensures
        course_of(states).stands[k] == states[k].scans(),
        course_of(states).picks[k] == states[k].at(),
        states[k].scan().current == picked(states[k].scans(), states[k].at()),
        states[k].at() is Some == states[k].scan().current is Some,
        keyed(states[0].order(), course_of(states).stands[k]),
        if forward {
            picks_least(
                states[0].order(),
                course_of(states).stands[k],
                course_of(states).picks[k],
            )
        } else {
            picks_greatest(
                states[0].order(),
                course_of(states).stands[k],
                course_of(states).picks[k],
            )
        },
        k < states.len() - 1 ==> course_of(states).picks[k] is Some && course_of(states).steps_to(
            k,
            forward,
        ),
{
    assert(states[k].wf());
    states[k].lemma_scan();
    states[k].lemma_at();
    lemma_pass_picks(states, forward, k);
    if k < states.len() - 1 {
        assert(steps_from(states, k, forward));
        assert(states[k + 1].wf());
        assert(keyed(states[k + 1].order(), states[k + 1].scans()));
        assert(course_of(states).stands[k + 1] == states[k + 1].scans());
    }
}

proof fn lemma_course_runs<C: Comparator>(states: Seq<MergingIterator<C>>, forward: bool)
    requires
        is_pass(states, forward),
    ensures
        course_of(states).runs(states[0].order(), forward),
{
    let comparator = states[0].order();
    let course = course_of(states);
    let last = course.stands.len() - 1;
    lemma_course_at(states, forward, 0);
    lemma_course_at(states, forward, last);
    assert(states[0].wf());
    assert(course.stands[0] == states[0].scans());
    assert forall|k: int| 0 <= k <= last implies keyed(comparator, #[trigger] course.stands[k]) by {
        lemma_course_at(states, forward, k);
    }
    assert forall|k: int| 0 <= k <= last implies if forward {
        picks_least(comparator, #[trigger] course.stands[k], course.picks[k])
    } else {
        picks_greatest(comparator, course.stands[k], course.picks[k])
    } by {
        lemma_course_at(states, forward, k);
    }
    assert forall|k: int| 0 <= k < last implies #[trigger] course.steps_to(k, forward) by {
        lemma_course_at(states, forward, k);
    }
    assert forall|k: int| 0 <= k < last implies (#[trigger] course.picks[k]) is Some by {
        lemma_course_at(states, forward, k);
    }
    assert forall|i: int| 0 <= i < course.stands[0].len() implies if forward {
        (#[trigger] course.stands[0][i]).at_first()
    } else {
        course.stands[0][i].at_last()
    } by {
        assert(course.stands[0][i] == states[0].scans()[i]);
    }
}

/// In each state of a pass the source with the least key is chosen, or the one with the
/// greatest, and each source stands on one of its entries or nowhere.
proof fn lemma_pass_picks<C: Comparator>(
    states: Seq<MergingIterator<C>>,
    forward: bool,
    k: int,
)
    requires
        is_pass(states, forward),
        0 <= k < states.len(),
    ensures
        states[k].picks(forward),
        states[k].forward() == forward,
        seated(states[k].scans()),
    decreases k,
{
    assert(states[k].wf());
    if k == 0 {
        assert forall|i: int| 0 <= i < states[0].scans().len() implies is_seated(
            #[trigger] states[0].scans()[i],
        ) by {
            assert(if forward {
                states[0].scans()[i].at_first()
            } else {
                states[0].scans()[i].at_last()
            });
        }
    } else {
        lemma_pass_picks(states, forward, k - 1);
        assert(states[k - 1].wf());
        assert(steps_from(states, k - 1, forward));
        let earlier = states[k - 1].scans();
        let later = states[k].scans();
        assert forall|i: int| 0 <= i < later.len() implies is_seated(#[trigger] later[i]) by {
            assert(is_seated(earlier[i]));
        }
    }
}

} // verus!
