//! In-memory accounting of time spent per category. Changes in the active
//! window are recorded here; the accumulated durations are written out to
//! the ledger by the surrounding program.

use vstd::prelude::*;

verus! {

/// An ordered list of category names in which each name occurs once.
pub struct UniqueCategories {
    items: Vec<String>,
}

impl UniqueCategories {
    /// The names in column order, as the contracts see them.
    pub closed spec fn view_items(&self) -> Seq<Seq<char>> {
        Seq::new(self.items@.len(), |i: int| self.items@[i]@)
    }

    /// No name occurs twice.
    pub open spec fn wf(&self) -> bool {
        forall|i: int, j: int|
            0 <= i < j < self.view_items().len() ==> self.view_items()[i] != self.view_items()[j]
    }

    /// Wraps a list of names, or reports the index of the first name that
    /// repeats an earlier one.
    pub fn from_unique(items: Vec<String>) -> (r: Result<UniqueCategories, usize>)
        ensures
            r matches Ok(u) ==> u.wf() && u.view_items() == Seq::new(
                items@.len(),
                |i: int| items@[i]@,
            ),
            r matches Err(j) ==> j < items@.len() && exists|i: int|
                0 <= i < j && items@[i]@ == items@[j as int]@,
    {
        let ghost names = Seq::new(items@.len(), |i: int| items@[i]@);
        let mut j: usize = 0;
        while j < items.len()
            invariant
                j <= items@.len(),
                names == Seq::new(items@.len(), |i: int| items@[i]@),
                forall|a: int, b: int| 0 <= a < b < j ==> names[a] != names[b],
            decreases items@.len() - j,
        {
            let mut i: usize = 0;
            while i < j
                invariant
                    i <= j < items@.len(),
                    names == Seq::new(items@.len(), |i: int| items@[i]@),
                    forall|a: int| 0 <= a < i ==> names[a] != names[j as int],
                decreases j - i,
            {
                if items[i].eq(&items[j]) {
                    proof {
                        assert(names[i as int] == names[j as int]);
                    }
                    return Err(j);
                }
                i += 1;
            }
            j += 1;
        }
        Ok(UniqueCategories { items })
    }

    /// How many categories there are.
    pub fn len(&self) -> (n: usize)
        ensures
            n == self.view_items().len(),
    {
        self.items.len()
    }

    /// The name of the category in column `i`.
    pub fn get(&self, i: usize) -> (s: &String)
        requires
            i < self.view_items().len(),
        ensures
            s@ == self.view_items()[i as int],
    {
        &self.items[i]
    }

    /// The column of the named category, if it is known.
    pub fn index_of(&self, name: &String) -> (r: Option<usize>)
        ensures
            r matches Some(i) ==> i < self.view_items().len() && self.view_items()[i as int]
                == name@,
            r is None ==> !self.view_items().contains(name@),
    {
        let mut i: usize = 0;
        while i < self.items.len()
            invariant
                i <= self.view_items().len(),
                forall|k: int| 0 <= k < i ==> self.view_items()[k] != name@,
            decreases self.view_items().len() - i,
        {
            if self.items[i].eq(name) {
                proof {
                    assert(self.view_items()[i as int] == name@);
                }
                return Some(i);
            }
            i += 1;
        }
        proof {
            if self.view_items().contains(name@) {
                let k = choose|k: int|
                    0 <= k < self.view_items().len() && self.view_items()[k] == name@;
            }
        }
        None
    }
}

/// Accumulated time per category for the current time window, in
/// milliseconds, together with which category is currently active and when
/// durations were last folded in.
pub struct CategoryDurationCounter {
    current_category_index: Option<usize>,
    last_recorded: u64,
    categories: UniqueCategories,
    durations: Vec<u64>,
}

impl CategoryDurationCounter {
    /// The accumulated milliseconds per category, by column.
    pub closed spec fn view_durations(&self) -> Seq<u64> {
        self.durations@
    }

    /// The category names, by column.
    pub closed spec fn view_categories(&self) -> Seq<Seq<char>> {
        self.categories.view_items()
    }

    /// The active category's column, if one is active.
    pub closed spec fn spec_current(&self) -> Option<usize> {
        self.current_category_index
    }

    /// When durations were last folded in, on the monotonic clock.
    pub closed spec fn spec_last_recorded(&self) -> u64 {
        self.last_recorded
    }

    /// One duration per category, and a current category that exists.
    pub open spec fn wf(&self) -> bool {
        &&& self.view_durations().len() == self.view_categories().len()
        &&& (self.spec_current() matches Some(i) ==> i < self.view_categories().len())
    }

    /// Creates a counter for the given categories with every duration at
    /// zero, no active category, and the given current time.
    pub fn new(categories: UniqueCategories, now_ms: u64) -> (r: CategoryDurationCounter)
        ensures
            r.wf(),
            r.view_categories() == categories.view_items(),
            r.view_durations() == Seq::new(categories.view_items().len(), |i: int| 0u64),
            r.spec_current() is None,
            r.spec_last_recorded() == now_ms,
    {
        let n = categories.len();
        let mut durations: Vec<u64> = Vec::new();
        let mut i: usize = 0;
        while i < n
            invariant
                i <= n,
                durations@ == Seq::new(i as nat, |k: int| 0u64),
            decreases n - i,
        {
            durations.push(0);
            proof {
                assert(durations@ =~= Seq::new((i + 1) as nat, |k: int| 0u64));
            }
            i += 1;
        }
        proof {
            assert(durations@ =~= Seq::new(categories.view_items().len(), |i: int| 0u64));
        }
        CategoryDurationCounter {
            current_category_index: None,
            last_recorded: now_ms,
            categories,
            durations,
        }
    }

    /// The accumulated durations; entry `i` belongs to category `i`.
    pub fn durations(&self) -> (r: &Vec<u64>)
        ensures
            r@ == self.view_durations(),
    {
        &self.durations
    }

    /// Replaces all durations, for resuming a time window read back from
    /// the ledger. The list must cover exactly the known categories.
    pub fn set_durations(&mut self, durations: Vec<u64>)
        requires
            old(self).wf(),
            durations@.len() == old(self).view_categories().len(),
        ensures
            final(self).wf(),
            final(self).view_durations() == durations@,
            final(self).view_categories() == old(self).view_categories(),
            final(self).spec_current() == old(self).spec_current(),
            final(self).spec_last_recorded() == old(self).spec_last_recorded(),
    {
        self.durations = durations;
    }

    /// Sets every duration back to zero, for a time window change.
    pub fn reset_durations(&mut self)
        requires
            old(self).wf(),
        ensures
            final(self).wf(),
            final(self).view_durations() == Seq::new(
                old(self).view_durations().len(),
                |i: int| 0u64,
            ),
            final(self).view_categories() == old(self).view_categories(),
            final(self).spec_current() == old(self).spec_current(),
            final(self).spec_last_recorded() == old(self).spec_last_recorded(),
    {
        let n = self.durations.len();
        let mut i: usize = 0;
        while i < n
            invariant
                i <= n,
                n == self.view_durations().len(),
                self.view_durations().len() == old(self).view_durations().len(),
                forall|k: int| 0 <= k < i ==> self.view_durations()[k] == 0u64,
                self.view_categories() == old(self).view_categories(),
                self.spec_current() == old(self).spec_current(),
                self.spec_last_recorded() == old(self).spec_last_recorded(),
                self.wf(),
            decreases n - i,
        {
            self.durations.set(i, 0);
            i += 1;
        }
        proof {
            assert(self.view_durations() =~= Seq::new(
                old(self).view_durations().len(),
                |i: int| 0u64,
            ));
        }
    }

    /// Adds the time from the last record up to `timestamp_ms` to the
    /// active category (saturating at the numeric limit), and moves the
    /// record point forward. Time never runs backwards here.
    pub fn record_current_duration(&mut self, timestamp_ms: u64)
        requires
            old(self).wf(),
            timestamp_ms >= old(self).spec_last_recorded(),
        ensures
            final(self).wf(),
            final(self).spec_last_recorded() == timestamp_ms,
            final(self).view_categories() == old(self).view_categories(),
            final(self).spec_current() == old(self).spec_current(),
            old(self).spec_current() matches Some(i) ==> final(self).view_durations() == old(
                self,
            ).view_durations().update(
                i as int,
                if old(self).view_durations()[i as int] + (timestamp_ms - old(
                    self,
                ).spec_last_recorded()) > u64::MAX {
                    u64::MAX
                } else {
                    (old(self).view_durations()[i as int] + (timestamp_ms - old(
                        self,
                    ).spec_last_recorded())) as u64
                },
            ),
            old(self).spec_current() is None ==> final(self).view_durations() == old(
                self,
            ).view_durations(),
    {
        match self.current_category_index {
            Some(index) => {
                let elapsed = timestamp_ms - self.last_recorded;
                let updated = self.durations[index].saturating_add(elapsed);
                self.durations.set(index, updated);
            }
            None => {}
        }
        self.last_recorded = timestamp_ms;
    }

    /// Records a change of active window: folds the running time into the
    /// previous category, then makes `category` current. A named category
    /// must be one of those given at construction; none means no category
    /// is active.
    pub fn category_changed(&mut self, category: Option<&String>, timestamp_ms: u64)
        requires
            old(self).wf(),
            timestamp_ms >= old(self).spec_last_recorded(),
            category matches Some(s) ==> old(self).view_categories().contains(s@),
        ensures
            final(self).wf(),
            final(self).spec_last_recorded() == timestamp_ms,
            final(self).view_categories() == old(self).view_categories(),
            category matches Some(s) ==> (final(self).spec_current() matches Some(i)
                && final(self).view_categories()[i as int] == s@),
            category is None ==> final(self).spec_current() is None,
            old(self).spec_current() matches Some(i) ==> final(self).view_durations() == old(
                self,
            ).view_durations().update(
                i as int,
                if old(self).view_durations()[i as int] + (timestamp_ms - old(
                    self,
                ).spec_last_recorded()) > u64::MAX {
                    u64::MAX
                } else {
                    (old(self).view_durations()[i as int] + (timestamp_ms - old(
                        self,
                    ).spec_last_recorded())) as u64
                },
            ),
            old(self).spec_current() is None ==> final(self).view_durations() == old(
                self,
            ).view_durations(),
    {
        self.record_current_duration(timestamp_ms);
        match category {
            Some(s) => {
                match self.categories.index_of(s) {
                    Some(i) => {
                        self.current_category_index = Some(i);
                    }
                    None => {
                        // excluded by the precondition: the name is known
                        proof {
                            assert(false);
                        }
                    }
                }
            }
            None => {
                self.current_category_index = None;
            }
        }
    }
}

} // verus!
