//! Lookup of the record that was current at a given time in a log that is
//! sorted by time.

use crate::order::is_le;
use crate::order::le;
use crate::order::lemma_le_transitive;
use crate::order::total_order;
use vstd::prelude::*;

verus! {

/// A record that knows the time at which it was written.
pub trait TimestampSupplier {
    type Timestamp: Ord;

    /// The time at which the record was written.
    spec fn timestamp(&self) -> Self::Timestamp;

    fn get_timestamp(&self) -> (t: &Self::Timestamp)
        ensures
            *t == self.timestamp(),
    ;
}

/// The records of `log` are in non-decreasing order of time.
pub open spec fn sorted_by_time<T: TimestampSupplier>(log: Seq<T>) -> bool {
    forall|i: int, j: int|
        0 <= i <= j < log.len() ==> le(#[trigger] log[i].timestamp(), #[trigger] log[j].timestamp())
}

/// Index of the last record of `log` that was written at or before `time`;
/// -1 where there is none.
pub open spec fn current_index<T: TimestampSupplier>(log: Seq<T>, time: T::Timestamp) -> int
    decreases log.len(),
{
    if log.len() == 0 {
        -1
    } else if le(log.last().timestamp(), time) {
        log.len() - 1
    } else {
        current_index(log.drop_last(), time)
    }
}

/// `current_index` is below the length of the log, the record it names was
/// written at or before `time`, and every later record after `time`.
pub proof fn lemma_current_index<T: TimestampSupplier>(log: Seq<T>, time: T::Timestamp)
    ensures
        -1 <= current_index(log, time) < log.len(),
        current_index(log, time) >= 0 ==> le(log[current_index(log, time)].timestamp(), time),
        forall|j: int|
            current_index(log, time) < j < log.len() ==> !le(#[trigger] log[j].timestamp(), time),
    decreases log.len(),
{
    if log.len() > 0 && !le(log.last().timestamp(), time) {
        lemma_current_index(log.drop_last(), time);
        assert forall|j: int| current_index(log, time) < j < log.len() implies !le(
            #[trigger] log[j].timestamp(),
            time,
        ) by {
            if j < log.len() - 1 {
                assert(log.drop_last()[j] == log[j]);
            }
        }
    }
}

/// The index that `current_index` gives is the only one with its property.
pub proof fn lemma_current_index_unique<T: TimestampSupplier>(
    log: Seq<T>,
    time: T::Timestamp,
    i: int,
)
    requires
        -1 <= i < log.len(),
        i >= 0 ==> le(log[i].timestamp(), time),
        forall|j: int| i < j < log.len() ==> !le(#[trigger] log[j].timestamp(), time),
    ensures
        i == current_index(log, time),
{
    lemma_current_index(log, time);
}

/// The record that was current at `time`: the last one written at or before
/// `time`, or `None` where the log is empty or starts after `time`.
pub fn get_time<'a, T: TimestampSupplier>(container: &'a Vec<T>, time: &T::Timestamp) -> (found:
    Option<&'a T>)
    requires
        total_order::<T::Timestamp>(),
        sorted_by_time(container@),
    ensures
        match found {
            Some(record) => current_index(container@, *time) >= 0 && *record
                == container@[current_index(container@, *time)],
            None => current_index(container@, *time) < 0,
        },
{
    proof {
        lemma_current_index(container@, *time);
    }
    if container.len() == 0 {
        return None;
    }
    let mut low: usize = 0;
    let mut high: usize = container.len() - 1;
    while low < high
        invariant
            total_order::<T::Timestamp>(),
            low <= high < container.len(),
            sorted_by_time(container@),
            low > 0 ==> le(container@[low as int].timestamp(), *time),
            forall|j: int|
                high < j < container.len() ==> !le(#[trigger] container@[j].timestamp(), *time),
        decreases high - low,
    {
        let mid: usize = low + (high - low + 1) / 2;
        if is_le(container[mid].get_timestamp(), time) {
            low = mid;
        } else {
            proof {
                assert forall|j: int| mid <= j < container.len() implies !le(
                    #[trigger] container@[j].timestamp(),
                    *time,
                ) by {
                    if le(container@[j].timestamp(), *time) {
                        lemma_le_transitive(
                            container@[mid as int].timestamp(),
                            container@[j].timestamp(),
                            *time,
                        );
                    }
                }
            }
            high = mid - 1;
        }
    }
    if is_le(container[low].get_timestamp(), time) {
        proof {
            lemma_current_index_unique(container@, *time, low as int);
        }
        Some(&container[low])
    } else {
        proof {
            assert forall|j: int| low <= j < container.len() implies !le(
                #[trigger] container@[j].timestamp(),
                *time,
            ) by {
                if le(container@[j].timestamp(), *time) {
                    lemma_le_transitive(
                        container@[low as int].timestamp(),
                        container@[j].timestamp(),
                        *time,
                    );
                }
            }
            lemma_current_index_unique(container@, *time, -1);
        }
        None
    }
}

/// The record written last, or `None` where the log is empty.
pub fn get_latest<T: TimestampSupplier>(container: &Vec<T>) -> (found: Option<&T>)
    ensures
        match found {
            Some(record) => container@.len() > 0 && *record == container@.last(),
            None => container@.len() == 0,
        },
{
    let n: usize = container.len();
    if n == 0 {
        None
    } else {
        Some(&container[n - 1])
    }
}

} // verus!
