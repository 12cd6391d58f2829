//! Transactions: all of their changes stand, or none.

use vstd::prelude::*;
use crate::errors::{IoError, TxError};
use crate::model::{restored, tx_begin_op, tx_commit_op, tx_finish_op, tx_rollback_op};
use crate::ranges::views;
use crate::sorted_map::{is_ordered, ordered, Item, SortedMap};
use crate::store::{Before, Store, Tx};
use crate::value::{Entry, EntryView};

verus! {

impl Store {
    /// Begin a transaction. A closed store refuses it, and one where a transaction is
    /// already open.
    pub fn tx_begin(&mut self) -> (out: Result<(), IoError>)
        ensures
            (final(self)@, out) == tx_begin_op(old(self)@),
    {
        match self.ensure_open() {
            Ok(()) => {},
            Err(e) => return Err(e),
        }
        if self.tx.is_some() {
            return Err(IoError::TransactionOpen);
        }
        let t = Tx { staged: Vec::new(), undo: SortedMap::new() };
        proof {
            assert(views(t.staged@) =~= Seq::<Seq<u8>>::empty());
        }
        self.tx = Some(t);
        Ok(())
    }

    /// Commit the open transaction: its records are owed to the log in one write. A closed
    /// store that had a log refuses what has changed something, and rolls it back.
    pub fn tx_commit(&mut self) -> (out: Result<(), IoError>)
        ensures
            (final(self)@, out) == tx_commit_op(old(self)@),
    {
        let mut tx: Option<Tx> = None;
        std::mem::swap(&mut tx, &mut self.tx);
        match tx {
            Some(t) => {
                if self.closed && self.had_log && t.staged.len() > 0 {
                    restore(&mut self.map, &t.undo);
                    return Err(IoError::StoreClosed);
                }
                match &mut self.log {
                    Some(a) => a.append_batch(&mut self.owed, &t.staged),
                    None => {},
                }
                Ok(())
            },
            None => Err(IoError::NoTransaction),
        }
    }

    /// Roll the open transaction back: every touched key is restored to what it held
    /// before, and nothing reaches the log.
    pub fn tx_rollback(&mut self) -> (out: Result<(), IoError>)
        ensures
            (final(self)@, out) == tx_rollback_op(old(self)@),
    {
        let mut tx: Option<Tx> = None;
        std::mem::swap(&mut tx, &mut self.tx);
        match tx {
            Some(t) => {
                restore(&mut self.map, &t.undo);
                Ok(())
            },
            None => Err(IoError::NoTransaction),
        }
    }

    /// End the open transaction by what its body returned: commit it for a value, roll it
    /// back for an error.
    pub fn tx_finish<T, E>(&mut self, result: Result<T, E>) -> (out: Result<T, TxError<E>>)
        ensures
            (final(self)@, out) == tx_finish_op(old(self)@, result),
    {
        match result {
            Ok(value) => match self.tx_commit() {
                Ok(()) => Ok(value),
                Err(e) => Err(TxError::Io(e)),
            },
            Err(error) => match self.tx_rollback() {
                Ok(()) => Err(TxError::User(error)),
                Err(e) => Err(TxError::Io(e)),
            },
        }
    }

    /// Run `f` in a transaction: its changes stand if it returns a value, and are rolled
    /// back if it returns an error. There is no transaction in a transaction.
    pub fn transact<F, T, E>(&mut self, f: F) -> (out: Result<T, TxError<E>>) where
        F: FnOnce(&mut Store) -> Result<T, E>,

        requires
            forall|s: &mut Store| #[trigger] f.requires((s,)),
        ensures
            match tx_begin_op(old(self)@) {
                (v, Ok(())) => exists|s: &mut Store, result: Result<T, E>|
                    {
                        &&& s@ == v
                        &&& #[trigger] f.ensures((s,), result)
                        &&& (final(self)@, out) == tx_finish_op(final(s)@, result)
                    },
                (v, Err(e)) => out == Err::<T, TxError<E>>(TxError::Io(e)) && final(self)@
                    == old(self)@,
            },
    {
        match self.tx_begin() {
            Ok(()) => {},
            Err(e) => return Err(TxError::Io(e)),
        }
        let result = f(self);
        self.tx_finish(result)
    }

    /// Whether a transaction is open.
    pub fn in_transaction(&self) -> (yes: bool)
        ensures
            yes == self@.tx is Some,
    {
        self.tx.is_some()
    }
}

/// Whether a key is among the first `n` that are listed.
spec fn among<B>(s: Seq<(Seq<char>, B)>, n: int, k: Seq<char>) -> bool {
    exists|j: int| 0 <= j < n && #[trigger] s[j].0 == k
}

/// Restore touched keys to what they held before.
pub(super) fn restore(map: &mut SortedMap<String, Entry>, undo: &SortedMap<String, Before>)
    ensures
        final(map)@ == restored(old(map)@, undo@),
{
    let ghost m = map@;
    let ghost s = ordered::<String, Option<EntryView>>(undo@);
    let n: usize = undo.len();
    let mut i: usize = 0;
    while i < n
        invariant
            i <= n,
            n == s.len(),
            s == ordered::<String, Option<EntryView>>(undo@),
            is_ordered::<String, Option<EntryView>>(s, undo@),
            forall|k: Seq<char>|
                !among(s, i as int, k) ==> #[trigger] map@.contains_key(k) == m.contains_key(k) && (
                m.contains_key(k) ==> map@[k] == m[k]),
            forall|j: int|
                0 <= j < i ==> map@.contains_key(#[trigger] s[j].0) == s[j].1 is Some && (s[j].1
                    matches Some(e) ==> map@[s[j].0] == e),
        decreases n - i,
    {
        let key = undo.key_at(i);
        let ghost was = map@;
        match &undo.val_at(i).entry {
            Some(e) => {
                map.insert(key.dup(), e.dup());
            },
            None => {
                map.remove(key.as_str());
            },
        }
        proof {
            let k0 = s[i as int].0;
            assert forall|j: int| 0 <= j < i + 1 implies map@.contains_key(#[trigger] s[j].0)
                == s[j].1 is Some && (s[j].1 matches Some(e) ==> map@[s[j].0] == e) by {
                if j < i {
                    assert(undo@.contains_key(s[j].0) && undo@.contains_key(k0));
                    if s[j].0 == k0 {
                        assert(s[j].1 == s[i as int].1);
                    }
                }
            }
            assert forall|k: Seq<char>|
                !among(s, i + 1, k) implies #[trigger] map@.contains_key(k) == m.contains_key(k) && (
            m.contains_key(k) ==> map@[k] == m[k]) by {
                assert(s[i as int].0 == k0);
                assert(!among(s, i as int, k));
                assert(was.contains_key(k) == m.contains_key(k));
            }
        }
        i += 1;
    }
    proof {
        let want = restored(m, undo@);
        assert forall|k: Seq<char>| #[trigger] map@.contains_key(k) == want.contains_key(k) && (
        want.contains_key(k) ==> map@[k] == want[k]) by {
            if undo@.contains_key(k) {
                let j = choose|j: int| 0 <= j < s.len() && #[trigger] s[j].0 == k;
                assert(map@.contains_key(s[j].0) == s[j].1 is Some);
            } else {
                assert(!among(s, n as int, k));
                assert(map@.contains_key(k) == m.contains_key(k));
            }
        }
        assert(map@ =~= want);
    }
}

} // verus!
