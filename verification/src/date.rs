use crate::time::Timestamp;
use vstd::prelude::*;

verus! {

/// Which of a directory's entries decides its new modification time.
#[derive(Debug, Clone, Copy, PartialEq, Eq, Structural)]
pub enum Date {
    /// The entry that was modified first.
    Earliest,
    /// The entry that was modified last.
    Latest,
}

impl Date {
    /// Under this setting `a` is chosen over `b`, or the two are the same time.
    pub open spec fn prefers(self, a: Timestamp, b: Timestamp) -> bool {
        match self {
            Date::Earliest => a.not_after(b),
            Date::Latest => b.not_after(a),
        }
    }

    /// Whether `a` is chosen over `b` under this setting and differs from it.
    pub fn replaces(&self, a: &Timestamp, b: &Timestamp) -> (better: bool)
        ensures
            better == (self.prefers(*a, *b) && *a != *b),
    {
        match self {
            Date::Earliest => a.is_before(b),
            Date::Latest => b.is_before(a),
        }
    }
}

/// `time` is the modification time of one of `entries` and none of them is
/// chosen over it. An entry that is `None` is one whose metadata could not be
/// read; it takes no part.
pub open spec fn is_extremal(entries: Seq<Option<Timestamp>>, date: Date, time: Timestamp) -> bool {
    &&& entries.contains(Some(time))
    &&& forall|i: int|
        0 <= i < entries.len() && (#[trigger] entries[i]) is Some ==> date.prefers(
            time,
            entries[i]->0,
        )
}

/// The time that a directory with these entries is to be given: the earliest
/// or the latest of the times that could be read, and `None` where none could.
pub open spec fn extremal(entries: Seq<Option<Timestamp>>, date: Date) -> Option<Timestamp> {
    if exists|time: Timestamp| is_extremal(entries, date, time) {
        Some(choose|time: Timestamp| is_extremal(entries, date, time))
    } else {
        None
    }
}

/// At most one time is extremal among given entries.
pub proof fn extremal_is_unique(
    entries: Seq<Option<Timestamp>>,
    date: Date,
    a: Timestamp,
    b: Timestamp,
)
    requires
        is_extremal(entries, date, a),
        is_extremal(entries, date, b),
    ensures
        a == b,
{
    let i = choose|i: int| 0 <= i < entries.len() && entries[i] == Some(a);
    let j = choose|j: int| 0 <= j < entries.len() && entries[j] == Some(b);
    assert(date.prefers(a, entries[j]->0));
    assert(date.prefers(b, entries[i]->0));
}

/// Where the time of some entry could be read, one of the times is extremal.
pub proof fn extremal_exists(entries: Seq<Option<Timestamp>>, date: Date)
    requires
        exists|i: int| 0 <= i < entries.len() && (#[trigger] entries[i]) is Some,
    ensures
        extremal(entries, date) is Some,
        is_extremal(entries, date, extremal(entries, date)->0),
    decreases entries.len(),
{
    let before = entries.drop_last();
    let last = entries.last();
    let some = choose|i: int| 0 <= i < entries.len() && (#[trigger] entries[i]) is Some;
    assert(entries[entries.len() - 1] == last);
    let best: Timestamp = if exists|i: int| 0 <= i < before.len() && (#[trigger] before[i]) is Some {
        extremal_exists(before, date);
        let earlier = extremal(before, date)->0;
        let k = choose|k: int| 0 <= k < before.len() && before[k] == Some(earlier);
        assert(entries[k] == Some(earlier));
        if last is Some && !date.prefers(earlier, last->0) {
            last->0
        } else {
            earlier
        }
    } else {
        if some < before.len() {
            assert(before[some] is Some);
        }
        last->0
    };
    assert(exists|i: int| 0 <= i < entries.len() && entries[i] == Some(best));
    assert forall|i: int| 0 <= i < entries.len() && (#[trigger] entries[i]) is Some implies date.prefers(
        best,
        entries[i]->0,
    ) by {
        if i < before.len() {
            assert(before[i] == entries[i]);
        }
    }
    assert(is_extremal(entries, date, best));
}

/// Computes the time that a directory with these entries is to be given.
///
/// Entries whose time is `None` are passed over. The result is `None` exactly
/// when every entry is; otherwise it is the one time among the entries that no
/// other is chosen over.
pub fn extremal_time(entries: &Vec<Option<Timestamp>>, date: Date) -> (time: Option<Timestamp>)
    ensures
        time == extremal(entries@, date),
        time is None <==> forall|i: int| 0 <= i < entries.len() ==> (#[trigger] entries[i]) is None,
        time matches Some(t) ==> is_extremal(entries@, date, t),
{
    let mut best: Option<Timestamp> = None;
    let mut i: usize = 0;
    while i < entries.len()
        invariant
            i <= entries.len(),
            best is None <==> forall|j: int| 0 <= j < i ==> (#[trigger] entries[j]) is None,
            best matches Some(t) ==> {
                &&& exists|j: int| 0 <= j < i && entries[j] == Some(t)
                &&& forall|j: int|
                    0 <= j < i && (#[trigger] entries[j]) is Some ==> date.prefers(
                        t,
                        entries[j]->0,
                    )
            },
        decreases entries.len() - i,
    {
        match entries[i] {
            None => {},
            Some(t) => {
                match best {
                    None => {
                        best = Some(t);
                    },
                    Some(b) => {
                        if date.replaces(&t, &b) {
                            best = Some(t);
                        }
                    },
                }
                assert(entries[i as int] == Some(t));
            },
        }
        i = i + 1;
    }
    proof {
        match best {
            Some(t) => {
                assert(is_extremal(entries@, date, t));
                extremal_is_unique(entries@, date, t, extremal(entries@, date)->0);
            },
            None => {
                assert forall|t: Timestamp| !is_extremal(entries@, date, t) by {
                    if entries@.contains(Some(t)) {
                        let j = choose|j: int| 0 <= j < entries.len() && entries[j] == Some(t);
                        assert(entries[j] is None);
                    }
                }
            },
        }
    }
    best
}

} // verus!
