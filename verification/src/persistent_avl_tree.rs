//! What every persistent tree of this library offers, whatever way it keeps
//! its past.

use crate::order::total_order;
use crate::tree::Change;
use crate::tree::is_predecessor;
use crate::tree::is_successor;
use crate::tree::replay;
use crate::tree::sound;
use crate::tree::stamped;
use vstd::multiset::Multiset;
use vstd::prelude::*;

verus! {

/// A partially persistent ordered multiset. Each insertion, and each
/// deletion that finds its item, makes a version and gives back the
/// version's timestamp; a query names the time at which it looks.
pub trait PersistentAvlTree: Sized {
    type Data: Ord;

    type Timestamp;

    /// The number of the version that the timestamp `t` names: 0 for the
    /// first version, one more for each that follows.
    spec fn ordinal(t: Self::Timestamp) -> nat;

    /// The invariant of the tree.
    spec fn wf(&self) -> bool;

    /// Number of versions made so far, which is the number of the next
    /// version.
    spec fn version_count(&self) -> nat;

    /// The operations that made the versions, in order.
    spec fn history(&self) -> Seq<Change<Self::Data>>;

    /// The data of the version seen at time `t`: the version made at `t`, or
    /// the latest where `t` is later than all; nothing before the first.
    spec fn contents_at(&self, t: Self::Timestamp) -> Multiset<Self::Data>;

    /// The data of the latest version; nothing before the first.
    spec fn latest(&self) -> Multiset<Self::Data>;

    /// From the timestamp of the latest version on, the latest version is
    /// seen.
    proof fn lemma_latest(&self, t: Self::Timestamp)
        requires
            self.wf(),
            Self::ordinal(t) + 1 >= self.version_count(),
        ensures
            self.contents_at(t) == self.latest(),
    ;

    /// The data are totally ordered, and every deletion in the history took
    /// out a datum that was there.
    proof fn lemma_history_sound(&self)
        requires
            self.wf(),
        ensures
            total_order::<Self::Data>(),
            sound(self.history()),
    ;

    /// There is a version for each operation, and the data of the version
    /// seen at a time are what the operations up to then leave.
    proof fn lemma_contents_replay(&self, t: Self::Timestamp)
        requires
            self.wf(),
        ensures
            self.history().len() == self.version_count(),
            self.contents_at(t) == replay(
                self.history().take(
                    if Self::ordinal(t) < self.version_count() {
                        (Self::ordinal(t) + 1) as int
                    } else {
                        self.version_count() as int
                    },
                ),
            ),
    ;

    /// Adds `item` to the latest version and so makes a new version, whose
    /// timestamp is given back.
    fn insert(&mut self, item: Self::Data) -> (stamp: Self::Timestamp)
        requires
            old(self).wf(),
        ensures
            final(self).wf(),
            stamped(old(self).version_count(), final(self).version_count(), Self::ordinal(stamp)),
            final(self).history() == old(self).history().push(Change::Insert(item)),
            forall|u: Self::Timestamp|
                Self::ordinal(u) < Self::ordinal(stamp) ==> #[trigger] final(self).contents_at(u)
                    == old(self).contents_at(u),
            final(self).latest() == old(self).latest().insert(item),
            final(self).contents_at(stamp) == final(self).latest(),
    ;

    /// Takes one `item` out of the latest version, if it is there, and so
    /// makes a new version, whose timestamp is given back. Where `item` is
    /// not in the latest version, no version is made and `None` is given
    /// back.
    fn delete(&mut self, item: Self::Data) -> (stamp: Option<Self::Timestamp>)
        requires
            old(self).wf(),
        ensures
            final(self).wf(),
            stamp is Some <==> old(self).latest().contains(item),
            stamp is None ==> {
                &&& final(self).version_count() == old(self).version_count()
                &&& final(self).history() == old(self).history()
                &&& final(self).latest() == old(self).latest()
            },
            stamp matches Some(t) ==> {
                &&& stamped(
                    old(self).version_count(),
                    final(self).version_count(),
                    Self::ordinal(t),
                )
                &&& final(self).history() == old(self).history().push(Change::Delete(item))
                &&& final(self).latest() == old(self).latest().remove(item)
                &&& final(self).contents_at(t) == final(self).latest()
            },
            forall|u: Self::Timestamp|
                Self::ordinal(u) < old(self).version_count() ==> #[trigger] final(self).contents_at(
                    u,
                ) == old(self).contents_at(u),
    ;

    /// Whether `item` is among the data of the version seen at `timestamp`.
    fn contains(&self, item: &Self::Data, timestamp: Self::Timestamp) -> (present: bool)
        requires
            self.wf(),
        ensures
            present == self.contents_at(timestamp).contains(*item),
    ;

    /// The greatest datum of the version seen at `timestamp` that is at most
    /// `item`, or `None` where there is none.
    fn predecessor(&self, item: &Self::Data, timestamp: Self::Timestamp) -> (found: Option<&Self::Data>)
        requires
            self.wf(),
        ensures
            is_predecessor(
                self.contents_at(timestamp),
                *item,
                match found {
                    Some(d) => Some(*d),
                    None => None,
                },
            ),
    ;

    /// The least datum of the version seen at `timestamp` that is at least
    /// `item`, or `None` where there is none.
    fn successor(&self, item: &Self::Data, timestamp: Self::Timestamp) -> (found: Option<&Self::Data>)
        requires
            self.wf(),
        ensures
            is_successor(
                self.contents_at(timestamp),
                *item,
                match found {
                    Some(d) => Some(*d),
                    None => None,
                },
            ),
    ;
}

} // verus!
