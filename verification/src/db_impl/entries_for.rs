//! All entries of a key, with those that are hidden.

use vstd::prelude::*;

use crate::comparator;
use crate::comparator::Comparator;
use crate::db_iter::db_iterator;
use crate::db_iter::db_iterator::DbIterator;
use crate::db_iter::db_iterator::Scan;
use crate::db_iter::seen;
use crate::db_iter::seen::Seen;
use crate::db_iter::user_view;
use crate::format::InternalKey;
use crate::format::InternalKeyComparator;
use crate::format::ValueType;
use crate::format::MAX_SEQUENCE_NUMBER;
use crate::status;
use crate::status::Status;

verus! {

/// Whether an entry says this: a value, or a deletion.
pub open spec fn entry_says(
    contents: Map<Seq<u8>, Seq<u8>>,
    key: Seq<u8>,
    said: Option<Vec<u8>>,
) -> bool {
    match (crate::format::parsed(key)->0).2 {
        ValueType::Value => said matches Some(value) && value@ == contents[key],
        ValueType::Deletion => said is None,
    }
}

/// Whether these are the first entries of a user key, and what they say.
pub open spec fn listed<C: Comparator>(
    user: C,
    scan: Scan,
    user_key: Seq<u8>,
    keys: Seq<Seq<u8>>,
    said: Seq<Option<Vec<u8>>>,
) -> bool {
    &&& keys.len() == said.len()
    &&& forall|i: int|
        #![trigger keys[i]]
        0 <= i < keys.len() ==> scan.contents.contains_key(keys[i]) && user_view::same(
            user,
            user_view::user_of(keys[i]),
            user_key,
        ) && entry_says(scan.contents, keys[i], said[i])
    &&& forall|i: int, j: int|
        0 <= i < j < keys.len() ==> (scan.before)(#[trigger] keys[i], #[trigger] keys[j])
}

/// Whether all entries of a user key are among these.
pub open spec fn complete<C: Comparator>(
    user: C,
    scan: Scan,
    user_key: Seq<u8>,
    keys: Seq<Seq<u8>>,
) -> bool {
    forall|key: Seq<u8>| #[trigger]
        scan.contents.contains_key(key) && user_view::same(user, user_view::user_of(key), user_key)
            ==> keys.contains(key)
}

/// Whether this is what the entries of a user key say, one after the other.
pub open spec fn entries_say<C: Comparator>(
    user: C,
    scan: Scan,
    user_key: Seq<u8>,
    said: Seq<Option<Vec<u8>>>,
) -> bool {
    exists|keys: Seq<Seq<u8>>| #[trigger]
        listed(user, scan, user_key, keys, said) && complete(user, scan, user_key, keys)
}

/// No entry of a user key comes before the key that is sought for it.
proof fn lemma_not_before_first<C: Comparator>(user: C, key: Seq<u8>, user_key: Seq<u8>)
    requires
        crate::format::parsed(key) is Some,
        user.admits(user_view::user_of(key)),
        user.admits(user_key),
    ensures
        ({
            let first = crate::format::internal_key_bytes(
                user_key,
                MAX_SEQUENCE_NUMBER as nat,
                ValueType::Value,
            );
            let order = InternalKeyComparator::over(user);
            &&& user_view::same(user, user_view::user_of(key), user_key) ==> !order.less(key, first)
            &&& !order.less(key, first) ==> !user.less(user_view::user_of(key), user_key)
        }),
{
    let first = crate::format::internal_key_bytes(
        user_key,
        MAX_SEQUENCE_NUMBER as nat,
        ValueType::Value,
    );
    InternalKeyComparator::<C>::lemma_over(user);
    crate::format::law_parse_round_trip(user_key, MAX_SEQUENCE_NUMBER as nat, ValueType::Value);
    crate::format::law_parse_write(key);
    let parts = crate::format::parsed(key)->0;
    crate::format::law_internal_order(
        InternalKeyComparator::over(user),
        parts,
        (user_key, MAX_SEQUENCE_NUMBER as nat, ValueType::Value),
    );
}

/// Whether each entry of a user key is listed, or still to come.
spec fn pending<C: Comparator>(
    user: C,
    scan: Scan,
    user_key: Seq<u8>,
    keys: Seq<Seq<u8>>,
) -> bool {
    forall|key: Seq<u8>| #[trigger]
        scan.contents.contains_key(key) && user_view::same(user, user_view::user_of(key), user_key)
            ==> keys.contains(key) || (scan.current is Some && !(scan.before)(key, scan.key()))
}

/// Behind the entries of a user key there are none.
proof fn lemma_none_behind<C: Comparator>(
    user: C,
    scan: Scan,
    user_key: Seq<u8>,
    keys: Seq<Seq<u8>>,
)
    requires
        user_view::internal_row(user, scan),
        user.admits(user_key),
        pending(user, scan, user_key, keys),
        scan.current is Some,
        scan.contents.contains_key(scan.key()),
        user.less(user_key, user_view::user_of(scan.key())),
    ensures
        complete(user, scan, user_key, keys),
{
    assert forall|key: Seq<u8>| #[trigger]
        scan.contents.contains_key(key) && user_view::same(
            user,
            user_view::user_of(key),
            user_key,
        ) implies keys.contains(key) by {
        user_view::lemma_same_less(
            user,
            user_view::user_of(key),
            user_key,
            user_view::user_of(scan.key()),
        );
        user_view::lemma_internal_less(user, key, scan.key());
    }
}

/// A step keeps what is pending, once the current entry is listed.
proof fn lemma_step<C: Comparator>(
    user: C,
    before: Scan,
    after: Scan,
    user_key: Seq<u8>,
    keys: Seq<Seq<u8>>,
)
    requires
        user_view::internal_row(user, before),
        after.same_source(before),
        before.current is Some,
        before.contents.contains_key(before.key()),
        pending(user, before, user_key, keys),
        after.after(before.key()),
    ensures
        pending(user, after, user_key, keys.push(before.key())),
{
    let more = keys.push(before.key());
    assert forall|key: Seq<u8>| #[trigger]
        after.contents.contains_key(key) && user_view::same(
            user,
            user_view::user_of(key),
            user_key,
        ) implies more.contains(key) || (after.current is Some && !(after.before)(
        key,
        after.key(),
    )) by {
        if keys.contains(key) {
            let i = choose|i: int| 0 <= i < keys.len() && keys[i] == key;
            assert(more[i] == key);
        } else if key == before.key() {
            assert(more[keys.len() as int] == key);
        } else {
            assert((before.before)(before.key(), key));
            if after.key() != key {
                assert((after.before)(after.key(), key));
                db_iterator::lemma_order_asymmetric(
                    after.before,
                    after.admits,
                    after.key(),
                    key,
                );
            } else {
                reveal(db_iterator::is_order);
            }
        }
    }
}

/// The current entry is behind those that are listed.
proof fn lemma_listed_more<C: Comparator>(
    user: C,
    scan: Scan,
    user_key: Seq<u8>,
    keys: Seq<Seq<u8>>,
    said: Seq<Option<Vec<u8>>>,
    one: Option<Vec<u8>>,
)
    requires
        listed(user, scan, user_key, keys, said),
        scan.current is Some,
        scan.contents.contains_key(scan.key()),
        user_view::same(user, user_view::user_of(scan.key()), user_key),
        entry_says(scan.contents, scan.key(), one),
        forall|i: int| 0 <= i < keys.len() ==> (scan.before)(#[trigger] keys[i], scan.key()),
    ensures
        listed(user, scan, user_key, keys.push(scan.key()), said.push(one)),
{
}

/// Collects what all entries of a user key say, newest first: the values, and `None` for
/// a deletion.
pub fn all_entries_for<C: Comparator, I: DbIterator>(
    comparator: &C,
    iter: &mut I,
    user_key: &[u8],
) -> (collected: status::Result<Vec<Option<Vec<u8>>>>)
    requires
        old(iter).wf(),
        (old(iter).scan().admits)(
            crate::format::internal_key_bytes(
                user_key@,
                MAX_SEQUENCE_NUMBER as nat,
                ValueType::Value,
            ),
        ),
        comparator.admits(user_key@),
    ensures
        final(iter).wf(),
        final(iter).scan().same_source(old(iter).scan()),
        final(iter).scan().calm(),
        final(iter).scan().keeps(old(iter).scan()),
        collected is Ok ==> final(iter).scan().failure is None,
        final(iter).scan().good() && user_view::internal_row(*comparator, old(iter).scan()) ==> {
            &&& collected matches Ok(said)
            &&& entries_say(*comparator, old(iter).scan(), user_key@, said@)
        },
{
    let ghost user = *comparator;
    let ghost source = iter.scan();
    let ghost whole = source.intact && user_view::internal_row(user, source);
    let target = InternalKey::new(user_key, MAX_SEQUENCE_NUMBER, ValueType::Value);
    proof {
        crate::format::law_parse_round_trip(
            user_key@,
            MAX_SEQUENCE_NUMBER as nat,
            ValueType::Value,
        );
    }
    iter.seek(target.encode());
    let mut said: Vec<Option<Vec<u8>>> = Vec::new();
    let ghost mut keys: Seq<Seq<u8>> = Seq::empty();
    let mut left: u64 = u64::MAX;
    proof {
        if whole && iter.scan().good() {
            let scan = iter.scan();
            db_iterator::lemma_ahead_bounded(scan);
            assert forall|key: Seq<u8>| #[trigger]
                scan.contents.contains_key(key) && user_view::same(
                    user,
                    user_view::user_of(key),
                    user_key@,
                ) implies keys.contains(key) || (scan.current is Some && !(scan.before)(
                key,
                scan.key(),
            )) by {
                lemma_not_before_first(user, key, user_key@);
                if key != scan.key() {
                    assert((scan.before)(scan.key(), key));
                    db_iterator::lemma_order_asymmetric(
                        scan.before,
                        scan.admits,
                        scan.key(),
                        key,
                    );
                } else {
                    reveal(db_iterator::is_order);
                }
            }
            if scan.current is Some {
                lemma_not_before_first(user, scan.key(), user_key@);
            }
        }
    }
    while iter.valid()
        invariant
            iter.wf(),
            iter.scan().same_source(source),
            source == old(iter).scan(),
            user == *comparator,
            user.admits(user_key@),
            whole == (source.intact && user_view::internal_row(user, source)),
            iter.scan().calm(),
            iter.scan().keeps(source),
            whole && iter.scan().good() ==> {
                &&& user_view::internal_row(user, iter.scan())
                &&& listed(user, source, user_key@, keys, said@)
                &&& pending(user, iter.scan(), user_key@, keys)
                &&& iter.scan().current is Some ==> {
                    &&& iter.scan().contents.contains_key(iter.scan().key())
                    &&& iter.scan().contents[iter.scan().key()] == iter.scan().value()
                    &&& !user.less(user_view::user_of(iter.scan().key()), user_key@)
                    &&& forall|i: int|
                        0 <= i < keys.len() ==> (source.before)(
                            #[trigger] keys[i],
                            iter.scan().key(),
                        )
                }
                &&& db_iterator::ahead(iter.scan()) <= left
            },
        ensures
            iter.wf(),
            iter.scan().same_source(source),
            iter.scan().calm(),
            iter.scan().keeps(source),
            whole && iter.scan().good() ==> listed(user, source, user_key@, keys, said@) && complete(
                user,
                source,
                user_key@,
                keys,
            ),
        decreases left,
    {
        let ghost here = iter.scan();
        proof {
            if whole && iter.scan().good() {
                db_iterator::lemma_ahead_positive(here);
            }
        }
        if left == 0 {
            return Err(Status::corruption("corrupted internal key in TEST_AllEntriesFor"));
        }
        let parsed = match crate::format::parse_internal_key(iter.key()) {
            None => {
                return Err(Status::corruption("corrupted internal key in TEST_AllEntriesFor"));
            },
            Some(parsed) => parsed,
        };
        if !comparator.accepts(parsed.user_key.as_slice()) {
            return Err(Status::corruption("corrupted internal key in TEST_AllEntriesFor"));
        }
        if !comparator::equivalent(comparator, parsed.user_key.as_slice(), user_key) {
            proof {
                if whole && iter.scan().good() {
                    lemma_none_behind(user, here, user_key@, keys);
                }
            }
            break;
        }
        let one: Option<Vec<u8>> = match parsed.value_type {
            ValueType::Value => Some(vstd::slice::slice_to_vec(iter.value())),
            ValueType::Deletion => None,
        };
        proof {
            if whole && iter.scan().good() {
                lemma_listed_more(user, here, user_key@, keys, said@, one);
            }
        }
        said.push(one);
        iter.next();
        proof {
            let now = iter.scan();
            if whole && iter.scan().good() {
                lemma_step(user, here, now, user_key@, keys);
                db_iterator::lemma_ahead_falls(here, now);
                if now.current is Some {
                    user_view::lemma_user_order(user, here.key(), now.key());
                    user_view::lemma_not_behind(
                        user,
                        user_key@,
                        user_view::user_of(here.key()),
                        user_view::user_of(now.key()),
                    );
                    let more = keys.push(here.key());
                    assert forall|i: int| 0 <= i < more.len() implies (source.before)(
                        #[trigger] more[i],
                        now.key(),
                    ) by {
                        if i < keys.len() {
                            assert(more[i] == keys[i]);
                            db_iterator::lemma_order_transitive(
                                source.before,
                                source.admits,
                                keys[i],
                                here.key(),
                                now.key(),
                            );
                        }
                    }
                }
                keys = keys.push(here.key());
            }
        }
        left = left - 1;
    }
    proof {
        if whole && iter.scan().good() {
            assert(entries_say(*comparator, old(iter).scan(), user_key@, said@));
        }
    }
    match iter.status() {
        Err(error) => Err(error),
        Ok(_) => Ok(said),
    }
}

/// The first that is listed of a user key is what a lookup sees of it at the latest sequence
/// number. A key of which nothing is listed is not seen.
pub proof fn law_first_listed_is_seen<C: Comparator>(
    user: C,
    scan: Scan,
    user_key: Seq<u8>,
    said: Seq<Option<Vec<u8>>>,
)
    requires
        entries_say(user, scan, user_key, said),
        user_view::internal_row(user, scan),
        seen::contents_sound(user, scan.contents),
        user.admits(user_key),
    ensures
        ({
            let latest = seen::seen_at(
                user,
                scan.contents,
                MAX_SEQUENCE_NUMBER as nat,
                user_key,
            );
            if said.len() == 0 {
                latest == Seen::Nothing
            } else {
                match said[0] {
                    Some(value) => latest == Seen::Value(value@),
                    None => latest == Seen::Deleted,
                }
            }
        }),
{
    let contents = scan.contents;
    let latest = MAX_SEQUENCE_NUMBER as nat;
    let keys = choose|keys: Seq<Seq<u8>>| #[trigger]
        listed(user, scan, user_key, keys, said) && complete(user, scan, user_key, keys);
    if said.len() == 0 {
        if exists|key: Seq<u8>| seen::answers(user, contents, latest, user_key, key) {
            let key = choose|key: Seq<u8>| seen::answers(user, contents, latest, user_key, key);
            assert(user_view::visible(contents, latest, key));
            assert(keys.contains(key));
        }
    } else {
        let first = keys[0];
        crate::format::law_parse_write(first);
        assert(user_view::visible(contents, latest, first));
        assert forall|other: Seq<u8>| #[trigger]
            user_view::visible(contents, latest, other) && user_view::same(
                user,
                user_view::user_of(other),
                user_view::user_of(first),
            ) && other != first implies InternalKeyComparator::over(user).less(first, other) by {
            seen::lemma_both_same(
                user,
                user_view::user_of(other),
                user_key,
                user_view::user_of(first),
            );
            assert(keys.contains(other));
            let k = choose|k: int| 0 <= k < keys.len() && keys[k] == other;
            assert((scan.before)(keys[0], keys[k]));
        }
        seen::lemma_answer(user, contents, latest, user_key, first);
    }
}

/// The first internal key of a user key comes behind all entries of smaller user keys, and no
/// entry of its own or of a greater user key comes before it: a range from one user key to
/// another takes in all entries of the first, and none of the second.
pub proof fn law_first_key_comes_first<C: Comparator>(user: C, key: Seq<u8>, user_key: Seq<u8>)
    requires
        crate::format::parsed(key) is Some,
        user.admits(user_view::user_of(key)),
        user.admits(user_key),
    ensures
        InternalKeyComparator::over(user).less(key, crate::format::first_internal_key(user_key))
            <==> user.less(user_view::user_of(key), user_key),
{
    let first = crate::format::first_internal_key(user_key);
    let held = user_view::user_of(key);
    lemma_not_before_first(user, key, user_key);
    InternalKeyComparator::<C>::lemma_over(user);
    crate::format::law_parse_round_trip(user_key, MAX_SEQUENCE_NUMBER as nat, ValueType::Value);
    user_view::lemma_internal_less(user, key, first);
    if user.less(user_key, held) && user.less(held, user_key) {
        user.less_transitive(user_key, held, user_key);
        user.less_irreflexive(user_key);
    }
    if user.less(user_key, held) {
        user_view::lemma_internal_less(user, first, key);
        if InternalKeyComparator::over(user).less(key, first) {
            user_view::lemma_user_order(user, key, first);
        }
    }
}

} // verus!
