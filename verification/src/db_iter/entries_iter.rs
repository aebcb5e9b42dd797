//! Iterator over entries that are held in memory.

use vstd::prelude::*;

use crate::comparator;
use crate::comparator::Comparator;
use crate::db_iter::db_iterator;
use crate::db_iter::db_iterator::DbIterator;
use crate::db_iter::db_iterator::Scan;
use crate::status;
use crate::table::table_iterator;

verus! {

/// Runs over entries in the order in which they stand, which is to be that of their
/// keys.
pub struct EntriesIterator<C: Comparator> {
    comparator: C,
    entries: Vec<(Vec<u8>, Vec<u8>)>,
    position: Option<usize>,
}

impl<C: Comparator> EntriesIterator<C> {
    /// The order of the keys.
    pub closed spec fn order(&self) -> C {
        self.comparator
    }

    /// The entries.
    pub closed spec fn entries(&self) -> Seq<db_iterator::Pair> {
        table_iterator::pair_views(self.entries@)
    }

    pub fn new(comparator: C, entries: Vec<(Vec<u8>, Vec<u8>)>) -> (iter: Self)
        requires
            crate::db_impl::entry_sort::all_comparable(
                comparator,
                table_iterator::pair_views(entries@),
            ),
        ensures
            iter.wf(),
            iter.order() == comparator,
            iter.entries() == table_iterator::pair_views(entries@),
            iter.scan().current is None,
    {
        EntriesIterator { comparator, entries, position: None }
    }

    /// What the iterator runs over.
    pub proof fn lemma_scan(&self)
        ensures
            self.scan().contents == db_iterator::map_of(self.entries()),
            self.scan().before == comparator::order_of(self.order()),
            self.scan().admits == comparator::domain_of(self.order()),
            self.scan().intact == db_iterator::sorted(self.order(), self.entries()),
            self.scan().steady,
            self.scan().failure is None,
    {
    }

    spec fn place(&self) -> int {
        match self.position {
            Some(index) => index as int,
            None => -1,
        }
    }

    proof fn lemma_current(&self)
        requires
            self.wf(),
        ensures
            self.scan().current == db_iterator::pair_at(self.entries(), self.place()),
    {
    }
}

impl<C: Comparator> DbIterator for EntriesIterator<C> {
    closed spec fn wf(&self) -> bool {
        &&& self.position matches Some(index) ==> index < self.entries@.len()
        &&& crate::db_impl::entry_sort::all_comparable(self.comparator, self.entries())
    }

    closed spec fn scan(&self) -> Scan {
        Scan {
            contents: db_iterator::map_of(self.entries()),
            before: comparator::order_of(self.comparator),
            admits: comparator::domain_of(self.comparator),
            intact: db_iterator::sorted(self.comparator, self.entries()),
            steady: true,
            current: match self.position {
                None => None,
                Some(index) => Some(self.entries()[index as int]),
            },
            failure: None,
        }
    }

    fn valid(&self) -> (answer: bool) {
        self.position.is_some()
    }

    fn seek_to_first(&mut self) {
        self.position = if self.entries.len() > 0 {
            Some(0)
        } else {
            None
        };
        proof {
            self.lemma_current();
            if self.scan().intact {
                db_iterator::lemma_at_first(self.scan(), self.comparator, self.entries());
            }
        }
    }

    fn seek_to_last(&mut self) {
        self.position = if self.entries.len() > 0 {
            Some(self.entries.len() - 1)
        } else {
            None
        };
        proof {
            self.lemma_current();
            if self.scan().intact {
                db_iterator::lemma_at_last(self.scan(), self.comparator, self.entries());
            }
        }
    }

    fn seek(&mut self, target: &[u8]) {
        let ghost pairs = self.entries();
        let ghost in_order = db_iterator::sorted(self.comparator, pairs);
        let mut left: usize = 0;
        let mut right: usize = self.entries.len();
        while left < right
            invariant
                left <= right <= self.entries@.len(),
                *self == *old(self),
                self.wf(),
                self.comparator.admits(target@),
                pairs == self.entries(),
                in_order == db_iterator::sorted(self.comparator, pairs),
                in_order ==> forall|i: int|
                    0 <= i < left ==> self.comparator.less(#[trigger] pairs[i].0, target@),
                in_order && right < pairs.len() ==> !self.comparator.less(
                    pairs[right as int].0,
                    target@,
                ),
            decreases right - left,
        {
            let middle: usize = left + (right - left) / 2;
            proof {
                assert(pairs[middle as int].0 == self.entries@[middle as int].0@);
                assert(self.comparator.admits(pairs[middle as int].0));
            }
            if comparator::precedes(
                &self.comparator,
                self.entries[middle].0.as_slice(),
                target,
            ) {
                proof {
                    if in_order {
                        assert forall|i: int| 0 <= i < middle + 1 implies self.comparator.less(
                            #[trigger] pairs[i].0,
                            target@,
                        ) by {
                            if i < middle {
                                assert(self.comparator.admits(pairs[i].0));
                                self.comparator.less_transitive(
                                    pairs[i].0,
                                    pairs[middle as int].0,
                                    target@,
                                );
                            }
                        }
                    }
                }
                left = middle + 1;
            } else {
                right = middle;
            }
        }
        self.position = if left >= self.entries.len() {
            None
        } else {
            Some(left)
        };
        proof {
            self.lemma_current();
            if in_order {
                db_iterator::lemma_at_or_after(
                    self.scan(),
                    self.comparator,
                    pairs,
                    target@,
                    left as int,
                );
            }
        }
    }

    fn next(&mut self) {
        match self.position {
            None => {},
            Some(index) => {
                self.position = if index < self.entries.len() - 1 {
                    Some(index + 1)
                } else {
                    None
                };
                proof {
                    self.lemma_current();
                    if self.scan().intact {
                        db_iterator::lemma_after(
                            self.scan(),
                            self.comparator,
                            self.entries(),
                            index as int,
                        );
                    }
                }
            },
        }
    }

    fn prev(&mut self) {
        match self.position {
            None => {},
            Some(index) => {
                self.position = if index > 0 {
                    Some(index - 1)
                } else {
                    None
                };
                proof {
                    self.lemma_current();
                    if self.scan().intact {
                        db_iterator::lemma_ahead_of(
                            self.scan(),
                            self.comparator,
                            self.entries(),
                            index as int,
                        );
                    }
                }
            },
        }
    }

    fn key(&self) -> (key: &[u8]) {
        match self.position {
            Some(index) => self.entries[index].0.as_slice(),
            None => &[],
        }
    }

    fn value(&self) -> (value: &[u8]) {
        match self.position {
            Some(index) => self.entries[index].1.as_slice(),
            None => &[],
        }
    }

    fn status(&self) -> (outcome: status::Result<()>) {
        Ok(())
    }
}

} // verus!
