//! Picks keys that are read, one for each stretch of bytes.

use vstd::prelude::*;

verus! {

/// How many samples are due when `size` bytes are read and `left` bytes were left
/// until the next sample.
pub open spec fn samples_due(left: int, size: int, period: int) -> int {
    if size <= left {
        0
    } else {
        (size - left - 1) / period + 1
    }
}

/// Collects the keys that were current when a period of bytes ran out.
#[derive(Debug)]
pub struct ReadSampler {
    enabled: bool,
    bytes_left: i64,
    period: i64,
    samples: Vec<Vec<u8>>,
}

/// The keys behind some vectors.
pub open spec fn views(keys: Seq<Vec<u8>>) -> Seq<Seq<u8>> {
    Seq::new(keys.len(), |i: int| keys[i]@)
}

/// How many bytes are left until the next key is picked, once some entries were read.
pub open spec fn left_after(left: int, period: int, entries: Seq<(Seq<u8>, Seq<u8>)>) -> int
    decreases entries.len(),
{
    if entries.len() == 0 {
        left
    } else {
        let earlier = left_after(left, period, entries.drop_last());
        let size = entries.last().0.len() + entries.last().1.len();
        earlier - size + samples_due(earlier, size as int, period) * period
    }
}

/// The keys that are picked of some entries that were read.
pub open spec fn picks_of(left: int, period: int, entries: Seq<(Seq<u8>, Seq<u8>)>) -> Seq<Seq<u8>>
    decreases entries.len(),
{
    if entries.len() == 0 {
        Seq::empty()
    } else {
        let earlier = left_after(left, period, entries.drop_last());
        let size = entries.last().0.len() + entries.last().1.len();
        picks_of(left, period, entries.drop_last()) + Seq::new(
            samples_due(earlier, size as int, period) as nat,
            |i: int| entries.last().0,
        )
    }
}

/// Whether a sampler counted the given entries, and no others.
pub open spec fn has_counted(
    before: ReadSampler,
    after: ReadSampler,
    entries: Seq<(Seq<u8>, Seq<u8>)>,
) -> bool {
    &&& after.is_enabled() == before.is_enabled()
    &&& after.stretch() == before.stretch()
    &&& after.left() == left_after(before.left(), before.stretch(), entries)
    &&& after.picked() == if before.is_enabled() {
        before.picked() + picks_of(before.left(), before.stretch(), entries)
    } else {
        before.picked()
    }
}

/// A sampler that counted nothing stays as it is.
pub proof fn lemma_counted_none(sampler: ReadSampler)
    ensures
        has_counted(sampler, sampler, Seq::empty()),
{
    assert(sampler.picked() + Seq::<Seq<u8>>::empty() =~= sampler.picked());
}

/// To count one entry after others is to count them all.
pub proof fn lemma_counted_more(
    before: ReadSampler,
    middle: ReadSampler,
    after: ReadSampler,
    entries: Seq<(Seq<u8>, Seq<u8>)>,
    entry: (Seq<u8>, Seq<u8>),
)
    requires
        has_counted(before, middle, entries),
        has_counted(middle, after, seq![entry]),
    ensures
        has_counted(before, after, entries.push(entry)),
{
    let one = seq![entry];
    let none = Seq::<(Seq<u8>, Seq<u8>)>::empty();
    assert(one.drop_last() =~= none);
    assert(entries.push(entry).drop_last() =~= entries);
    assert(left_after(middle.left(), middle.stretch(), none) == middle.left());
    assert(picks_of(middle.left(), middle.stretch(), none) =~= Seq::<Seq<u8>>::empty());
    assert(after.picked() =~= if before.is_enabled() {
        before.picked() + picks_of(before.left(), before.stretch(), entries.push(entry))
    } else {
        before.picked()
    });
}

impl ReadSampler {
    /// The keys that were picked.
    pub closed spec fn picked(&self) -> Seq<Seq<u8>> {
        views(self.samples@)
    }

    /// How many bytes are left until the next key is picked.
    pub closed spec fn left(&self) -> int {
        self.bytes_left as int
    }

    /// How many bytes lie between two picks.
    pub closed spec fn stretch(&self) -> int {
        self.period as int
    }

    /// Whether keys are picked at all.
    pub closed spec fn is_enabled(&self) -> bool {
        self.enabled
    }

    /// The bytes that are left are fewer than a period.
    pub closed spec fn wf(&self) -> bool {
        self.period >= 1 && 0 <= self.bytes_left <= self.period
    }

    pub fn new(period: i64) -> (sampler: Self)
        requires
            period >= 1,
        ensures
            sampler.wf(),
            sampler.picked() == Seq::<Seq<u8>>::empty(),
            sampler.left() == period,
            sampler.stretch() == period,
            !sampler.is_enabled(),
    {
        let sampler = ReadSampler {
            enabled: false,
            bytes_left: period,
            period,
            samples: Vec::new(),
        };
        assert(sampler.picked() =~= Seq::<Seq<u8>>::empty());
        sampler
    }

    pub fn enable(&mut self)
        requires
            old(self).wf(),
        ensures
            final(self).wf(),
            final(self).is_enabled(),
            final(self).picked() == old(self).picked(),
            final(self).left() == old(self).left(),
            final(self).stretch() == old(self).stretch(),
    {
        self.enabled = true;
    }

    /// Changes the period, which is at least one byte.
    pub fn set_period(&mut self, period: i64)
        requires
            old(self).wf(),
        ensures
            final(self).wf(),
            final(self).is_enabled() == old(self).is_enabled(),
            final(self).picked() == old(self).picked(),
            final(self).stretch() == if period < 1 {
                1
            } else {
                period as int
            },
            final(self).left() == final(self).stretch(),
    {
        self.period = if period < 1 {
            1
        } else {
            period
        };
        self.bytes_left = self.period;
    }

    /// Counts an entry that was read.
    pub fn charge(&mut self, key: &[u8], value: &[u8])
        requires
            old(self).wf(),
        ensures
            final(self).wf(),
            final(self).is_enabled() == old(self).is_enabled(),
            final(self).stretch() == old(self).stretch(),
            ({
                let size = key@.len() + value@.len();
                let due = samples_due(old(self).left(), size as int, old(self).stretch());
                &&& final(self).left() == old(self).left() - size + due * old(self).stretch()
                &&& final(self).picked() == if old(self).is_enabled() {
                    old(self).picked() + Seq::new(due as nat, |i: int| key@)
                } else {
                    old(self).picked()
                }
            }),
            has_counted(*old(self), *final(self), seq![(key@, value@)]),
    {
        let ghost size = key@.len() + value@.len();
        let ghost period = self.period as int;
        let ghost start = self.bytes_left as int;
        let ghost due = samples_due(start, size as int, period);
        let ghost before = self.picked();
        let step: i128 = self.period as i128;
        let mut left: i128 = self.bytes_left as i128 - key.len() as i128 - value.len() as i128;
        let ghost mut fired: int = 0;
        proof {
            assert(before + Seq::new(0nat, |i: int| key@) =~= before);
        }
        while left < 0
            invariant
                self.enabled == old(self).enabled,
                self.period == old(self).period,
                self.period == period,
                step == period,
                period >= 1,
                0 <= start <= period,
                left == start - size + fired * period,
                0 <= fired,
                fired == 0 ==> left <= start,
                fired > 0 ==> left < period,
                -0x2_0000_0000_0000_0000 <= left <= i64::MAX,
                self.picked() == if self.enabled {
                    before + Seq::new(fired as nat, |i: int| key@)
                } else {
                    before
                },
            decreases (if left < 0 {
                -left as int
            } else {
                0
            }),
        {
            left = left + step;
            proof {
                assert((fired + 1) * period == fired * period + period) by (nonlinear_arith);
                fired = fired + 1;
            }
            if self.enabled {
                let ghost earlier = self.picked();
                self.samples.push(vstd::slice::slice_to_vec(key));
                proof {
                    assert(self.picked() =~= earlier.push(key@));
                    assert(self.picked() =~= before + Seq::new(fired as nat, |i: int| key@));
                }
            }
        }
        proof {
            if fired > 0 {
                let short = size - start;
                assert(fired * period >= period) by (nonlinear_arith)
                    requires
                        fired >= 1,
                        period >= 1,
                ;
                assert(0 <= left < period);
                assert(short == fired * period - left);
                assert((short - 1) / period == fired - 1) by {
                    assert((fired - 1) * period == fired * period - period) by (nonlinear_arith);
                    vstd::arithmetic::div_mod::lemma_fundamental_div_mod_converse(
                        short - 1,
                        period,
                        fired - 1,
                        period - 1 - left,
                    );
                }
            }
            assert(fired == due);
        }
        self.bytes_left = left as i64;
        proof {
            let one = seq![(key@, value@)];
            let none = Seq::<(Seq<u8>, Seq<u8>)>::empty();
            assert(one.drop_last() =~= none);
            assert(left_after(start, period, none) == start);
            assert(picks_of(start, period, none) =~= Seq::<Seq<u8>>::empty());
            assert(self.picked() =~= if self.enabled {
                before + picks_of(start, period, one)
            } else {
                before
            });
        }
    }

    /// Hands out the keys that were picked so far.
    pub fn take(&mut self) -> (samples: Vec<Vec<u8>>)
        requires
            old(self).wf(),
        ensures
            final(self).wf(),
            views(samples@) == old(self).picked(),
            final(self).picked() == Seq::<Seq<u8>>::empty(),
            final(self).left() == old(self).left(),
            final(self).stretch() == old(self).stretch(),
            final(self).is_enabled() == old(self).is_enabled(),
    {
        let mut samples: Vec<Vec<u8>> = Vec::new();
        std::mem::swap(&mut samples, &mut self.samples);
        assert(self.picked() =~= Seq::<Seq<u8>>::empty());
        samples
    }
}

/// The bytes of some entries, keys and values.
pub open spec fn entry_bytes(entries: Seq<(Seq<u8>, Seq<u8>)>) -> int {
    entries.fold_left(0, |sum: int, entry: (Seq<u8>, Seq<u8>)| sum + entry.0.len() + entry.1.len())
}

proof fn lemma_entry_bytes(entries: Seq<(Seq<u8>, Seq<u8>)>)
    requires
        entries.len() > 0,
    ensures
        entry_bytes(entries) == entry_bytes(entries.drop_last()) + entries.last().0.len()
            + entries.last().1.len(),
{
    let plus = |sum: int, entry: (Seq<u8>, Seq<u8>)| sum + entry.0.len() + entry.1.len();
    assert(entries.fold_left(0, plus) == plus(
        entries.drop_last().fold_left(0, plus),
        entries.last(),
    ));
}

proof fn lemma_due(left: int, size: int, period: int)
    requires
        period >= 1,
        0 <= left <= period,
        0 <= size,
    ensures
        ({
            let due = samples_due(left, size, period);
            let rest = left - size + due * period;
            &&& 0 <= due
            &&& 0 <= rest <= period
            &&& due > 0 ==> rest < period
            &&& due == 0 ==> rest == left - size
        }),
{
    if size > left {
        let short = size - left - 1;
        let quotient = short / period;
        vstd::arithmetic::div_mod::lemma_fundamental_div_mod(short, period);
        vstd::arithmetic::div_mod::lemma_mod_pos_bound(short, period);
        assert(period * quotient == quotient * period) by (nonlinear_arith);
        assert((quotient + 1) * period == quotient * period + period) by (nonlinear_arith);
        assert(quotient >= 0) by (nonlinear_arith)
            requires
                quotient * period + short % period == short,
                short >= 0,
                0 <= short % period < period,
        ;
    }
}

/// Of the entries that are read, a key is picked each time that a period of bytes has run
/// out: the first when the bytes that were left are read, then one for each period. Each
/// pick is the key of the entry with which it ran out.
pub proof fn law_picks_follow_bytes(left: int, period: int, entries: Seq<(Seq<u8>, Seq<u8>)>)
    requires
        period >= 1,
        0 <= left <= period,
    ensures
        ({
            let picks = picks_of(left, period, entries);
            let rest = left_after(left, period, entries);
            &&& rest == left - entry_bytes(entries) + picks.len() * period
            &&& 0 <= rest <= period
            &&& picks.len() > 0 ==> rest < period
            &&& forall|j: int|
                0 <= j < picks.len() ==> exists|i: int|
                    0 <= i < entries.len() && (#[trigger] entries[i]).0 == #[trigger] picks[j]
                        && entry_bytes(entries.take(i)) <= left + j * period < entry_bytes(
                        entries.take(i + 1),
                    )
        }),
    decreases entries.len(),
{
    let picks = picks_of(left, period, entries);
    let rest = left_after(left, period, entries);
    if entries.len() > 0 {
        let front = entries.drop_last();
        law_picks_follow_bytes(left, period, front);
        lemma_entry_bytes(entries);
        let some = picks_of(left, period, front);
        let earlier = left_after(left, period, front);
        let size = (entries.last().0.len() + entries.last().1.len()) as int;
        let due = samples_due(earlier, size, period);
        lemma_due(earlier, size, period);
        assert(picks.len() == some.len() + due);
        assert((some.len() + due) * period == some.len() * period + due * period)
            by (nonlinear_arith);
        assert forall|j: int| 0 <= j < picks.len() implies exists|i: int|
            0 <= i < entries.len() && (#[trigger] entries[i]).0 == #[trigger] picks[j]
                && entry_bytes(entries.take(i)) <= left + j * period < entry_bytes(
                entries.take(i + 1),
            ) by {
            if j < some.len() {
                assert(picks[j] == some[j]);
                let i = choose|i: int|
                    0 <= i < front.len() && (#[trigger] front[i]).0 == some[j] && entry_bytes(
                        front.take(i),
                    ) <= left + j * period < entry_bytes(front.take(i + 1));
                assert(entries[i] == front[i]);
                assert(entries.take(i) =~= front.take(i));
                assert(entries.take(i + 1) =~= front.take(i + 1));
            } else {
                let i = entries.len() - 1;
                assert(entries[i].0 == picks[j]);
                assert(entries.take(i) =~= front);
                assert(entries.take(i + 1) =~= entries);
                let (low, high) = (some.len() as int, picks.len() - 1);
                assert(low * period <= j * period) by (nonlinear_arith)
                    requires
                        low <= j,
                        period >= 1,
                ;
                assert(j * period <= high * period) by (nonlinear_arith)
                    requires
                        j <= high,
                        period >= 1,
                ;
                assert((high + 1) * period == high * period + period) by (nonlinear_arith);
            }
        }
    } else {
        assert(entry_bytes(entries) == 0);
        assert(0 * period == 0) by (nonlinear_arith);
    }
}

} // verus!
