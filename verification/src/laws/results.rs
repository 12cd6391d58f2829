//! What is said of a result is said of all that it holds.

use std::collections::VecDeque;
use vstd::prelude::*;
use vstd::std_specs::convert::FromSpec;
use crate::errors::{IoError, ListError, Recovery, RecoveryInfo, WrongType, ZAddError};
use crate::mutate::popped_view;
use crate::ranges::views;
use crate::score::OrderedF64;
use crate::snapshot::SnapshotFault;
use crate::sorted_map::SortedMap;
use crate::store::{blob_view, list_view};
use crate::store::hashes::pairs_view;
use crate::store::zsets::{score_view, scored_view};
use crate::value::{Entry, Value, ValueView};
use crate::zset::{Scored, ZSet};

verus! {

/// A blob that is returned is spoken of by its bytes, and an error as itself.
pub proof fn blobs_are_shown(b: Vec<u8>, e: WrongType)
    ensures
        blob_view::<WrongType>(Ok(Some(b))) == Ok::<Option<Seq<u8>>, WrongType>(Some(b@)),
        blob_view::<WrongType>(Ok(None)) == Ok::<Option<Seq<u8>>, WrongType>(None),
        blob_view::<WrongType>(Err(e)) == Err::<Option<Seq<u8>>, WrongType>(e),
        popped_view(Ok(Some(b))) == Ok::<Option<Seq<u8>>, WrongType>(Some(b@)),
        popped_view(Ok(None)) == Ok::<Option<Seq<u8>>, WrongType>(None),
        popped_view(Err(e)) == Err::<Option<Seq<u8>>, WrongType>(e),
{
}

/// A list that is returned is spoken of by all its items, in their order.
pub proof fn lists_are_shown(l: Vec<Vec<u8>>, pairs: Vec<(String, Vec<u8>)>, i: int)
    ensures
        views(l@).len() == l@.len(),
        0 <= i < l@.len() ==> views(l@)[i] == l@[i]@,
        list_view(Ok(l)) == Ok::<Seq<Seq<u8>>, WrongType>(views(l@)),
        list_view(Err(WrongType)) == Err::<Seq<Seq<u8>>, WrongType>(WrongType),
        pairs_view(pairs@).len() == pairs@.len(),
        0 <= i < pairs@.len() ==> pairs_view(pairs@)[i] == (pairs@[i].0@, pairs@[i].1@),
{
}

/// A score that is returned is spoken of by its bits, and a member with a score by both.
pub proof fn scores_are_shown(s: OrderedF64, l: Vec<Scored>, i: int)
    ensures
        s@ == s.0,
        score_view(Ok(Some(s))) == Ok::<Option<u64>, WrongType>(Some(s.0)),
        score_view(Ok(None)) == Ok::<Option<u64>, WrongType>(None),
        score_view(Err(WrongType)) == Err::<Option<u64>, WrongType>(WrongType),
        scored_view(Ok(l)) == Ok::<Seq<(Seq<u8>, u64)>, WrongType>(views(l@)),
        scored_view(Err(WrongType)) == Err::<Seq<(Seq<u8>, u64)>, WrongType>(WrongType),
        0 <= i < l@.len() ==> views(l@)[i] == (l@[i].member@, l@[i].score.0),
{
}

/// A value that is held is spoken of by all that it holds, and an entry by its value and
/// its time of expiry.
pub proof fn values_are_shown(
    b: Vec<u8>,
    l: VecDeque<Vec<u8>>,
    h: SortedMap<String, Vec<u8>>,
    s: SortedMap<Vec<u8>, ()>,
    z: ZSet,
    e: Entry,
)
    ensures
        Value::Bytes(b)@ == ValueView::Bytes(b@),
        Value::List(l)@ == ValueView::List(Seq::new(l@.len(), |i: int| l@[i]@)),
        Value::Hash(h)@ == ValueView::Hash(h@),
        Value::Members(s)@ == ValueView::Members(s@.dom()),
        Value::ZSet(z)@ == ValueView::ZSet(z@),
        e@.value == e.value@ && e@.expire_at == e.expire_at,
{
}

/// Every error has a message of its own, and one that wraps another has that of the other.
pub proof fn errors_are_told(e: IoError)
    ensures
        IoError::StoreClosed.text() == "store is closed"@,
        IoError::TransactionOpen.text() == "a transaction is already open"@,
        IoError::NoTransaction.text() == "no transaction is open"@,
        ListError::WrongType.text() == "WRONGTYPE"@,
        ListError::Io(e).text() == e.text(),
        ZAddError::WrongType.text() == "WRONGTYPE"@,
        ZAddError::BadScore.text() == "score is not a valid number"@,
        ZAddError::Io(e).text() == e.text(),
{
}

/// Every fault of a snapshot has a message of its own.
pub proof fn faults_are_told()
    ensures
        SnapshotFault::TooSmall.text() == "snapshot too small"@,
        SnapshotFault::BadMagic.text() == "bad magic: not a Strenor snapshot"@,
        SnapshotFault::BadVersion.text() == "unsupported snapshot version"@,
        SnapshotFault::BadChecksum.text() == "checksum mismatch: snapshot is corrupted"@,
        SnapshotFault::Truncated.text() == "snapshot truncated"@,
        SnapshotFault::BadKey.text() == "invalid utf8 key"@,
        SnapshotFault::BadField.text() == "invalid utf8 hash field"@,
        SnapshotFault::BadType.text() == "unknown entry type in snapshot"@,
{
}

/// An error that is carried on is the same error, and what a recovery found is passed on
/// whole.
pub proof fn errors_are_carried_on(e: IoError, t: WrongType, r: Recovery)
    ensures
        <ListError as FromSpec<IoError>>::from_spec(e) == ListError::Io(e),
        <ListError as FromSpec<WrongType>>::from_spec(t) == ListError::WrongType,
        <ZAddError as FromSpec<IoError>>::from_spec(e) == ZAddError::Io(e),
        <RecoveryInfo as FromSpec<Recovery>>::from_spec(r).applied == r.applied,
        <RecoveryInfo as FromSpec<Recovery>>::from_spec(r).truncated == r.truncated,
{
}

} // verus!
