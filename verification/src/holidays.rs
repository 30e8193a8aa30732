//! The set of bank holidays.

use vstd::prelude::*;
use vstd::string::*;
use crate::text::string_views;

verus! {

/// A set of dates, each held as its text. A date is in the set once or not at
/// all: adding one that is there already changes nothing.
pub struct BankHolidays {
    dates: Vec<String>,
}

impl View for BankHolidays {
    type V = Set<Seq<char>>;

    closed spec fn view(&self) -> Set<Seq<char>> {
        string_views(self.dates@).to_set()
    }
}

impl BankHolidays {
    /// No date is stored twice.
    #[verifier::type_invariant]
    spec fn dates_are_distinct(&self) -> bool {
        string_views(self.dates@).no_duplicates()
    }

    /// The empty set.
    pub fn new() -> (set: BankHolidays)
        ensures
            set@ == Set::<Seq<char>>::empty(),
    {
        BankHolidays { dates: Vec::new() }
    }

    /// The number of dates in the set.
    pub fn len(&self) -> (n: usize)
        ensures
            n == self@.len(),
            self@.finite(),
    {
        proof {
            use_type_invariant(self);
            string_views(self.dates@).unique_seq_to_set();
        }
        self.dates.len()
    }

    /// Whether `date` is in the set.
    pub fn contains(&self, date: &str) -> (found: bool)
        ensures
            found == self@.contains(date@),
    {
        let wanted = String::from_str(date);
        let mut i: usize = 0;
        while i < self.dates.len()
            invariant
                i <= self.dates.len(),
                wanted@ == date@,
                forall|j: int| 0 <= j < i ==> string_views(self.dates@)[j] != date@,
            decreases self.dates.len() - i,
        {
            if self.dates[i] == wanted {
                proof {
                    assert(string_views(self.dates@)[i as int] == date@);
                }
                return true;
            }
            i += 1;
        }
        false
    }

    /// Puts `date` into the set.
    pub fn insert(&mut self, date: String)
        ensures
            final(self)@ == old(self)@.insert(date@),
    {
        if !self.contains(date.as_str()) {
            // The list leaves the set while it grows, so that the set itself is
            // at no time seen with the new date half in it.
            let mut dates: Vec<String> = Vec::new();
            proof {
                use_type_invariant(&*self);
            }
            core::mem::swap(&mut self.dates, &mut dates);
            let ghost before = string_views(dates@);
            dates.push(date);
            proof {
                assert(string_views(dates@) == before.push(date@));
                before.lemma_push_to_set_commute(date@);
            }
            core::mem::swap(&mut self.dates, &mut dates);
        }
    }
}

} // verus!
