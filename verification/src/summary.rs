use vstd::prelude::*;

verus! {

/// Aggregate outcome for one candidate executable: the candidate's name,
/// how many cases it answered correctly (`ac`, "accepted"), how many it
/// missed (`wa`, "wrong answer"), and its mean latency in microseconds
/// across all cases.
pub struct KyouproResult {
    pub entry_name: String,
    pub ac: usize,
    pub wa: usize,
    pub average_us: u128,
}

impl KyouproResult {
    pub fn set_average_us(&mut self, average_us: u128)
        ensures
            final(self).average_us == average_us,
            final(self).entry_name == old(self).entry_name,
            final(self).ac == old(self).ac,
            final(self).wa == old(self).wa,
    {
        self.average_us = average_us;
    }

    pub fn set_entry_name(&mut self, name: &str)
        ensures
            final(self).entry_name@ == name@,
            final(self).ac == old(self).ac,
            final(self).wa == old(self).wa,
            final(self).average_us == old(self).average_us,
    {
        self.entry_name = name.to_owned();
    }

    pub fn count_ac(&mut self)
        requires
            old(self).ac < usize::MAX,
        ensures
            final(self).ac == old(self).ac + 1,
            final(self).wa == old(self).wa,
            final(self).entry_name == old(self).entry_name,
            final(self).average_us == old(self).average_us,
    {
        self.ac = self.ac + 1;
    }

    pub fn count_wa(&mut self)
        requires
            old(self).wa < usize::MAX,
        ensures
            final(self).wa == old(self).wa + 1,
            final(self).ac == old(self).ac,
            final(self).entry_name == old(self).entry_name,
            final(self).average_us == old(self).average_us,
    {
        self.wa = self.wa + 1;
    }
}

impl Default for KyouproResult {
    fn default() -> (r: Self)
        ensures
            r.entry_name@ == Seq::<char>::empty(),
            r.ac == 0,
            r.wa == 0,
            r.average_us == 0,
    {
        KyouproResult { entry_name: String::new(), ac: 0, wa: 0, average_us: 0 }
    }
}

} // verus!
