use vstd::prelude::*;

use crate::interval::Interval;

verus! {

/// A classification entry: a name and one interval per field.
#[derive(Debug)]
pub struct Rule {
    pub name: String,
    pub intervals: Vec<Interval>,
}

/// Whether every field value lies in the rule's interval for that field.
pub open spec fn matches_spec(rule: Rule, fields: Seq<u64>) -> bool {
    &&& rule.intervals@.len() == fields.len()
    &&& forall|d: int| 0 <= d < fields.len() ==> #[trigger] rule.intervals@[d].spec_contains(fields[d])
}

impl Rule {
    pub fn new(name: &str, intervals: Vec<Interval>) -> (r: Rule)
        ensures
            r.name@ == name@,
            r.intervals@ == intervals@,
    {
        Rule { name: name.to_string(), intervals }
    }

    /// Whether the field tuple falls inside the rule in every dimension.
    pub fn matches(&self, fields: &Vec<u64>) -> (r: bool)
        ensures
            r == matches_spec(*self, fields@),
    {
        if self.intervals.len() != fields.len() {
            return false;
        }
        let mut d: usize = 0;
        while d < fields.len()
            invariant
                self.intervals@.len() == fields@.len(),
                0 <= d <= fields@.len(),
                forall|e: int| 0 <= e < d ==> #[trigger] self.intervals@[e].spec_contains(fields@[e]),
            decreases fields@.len() - d,
        {
            if !self.intervals[d].contains(fields[d]) {
                return false;
            }
            d += 1;
        }
        true
    }
}

} // verus!
