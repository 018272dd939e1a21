//! Word expansions.

use crate::source::Location;
use vstd::prelude::*;
use vstd::string::StringExecFns;

verus! {

/// Errors that may happen in word expansions.
#[derive(Clone, Copy, Debug, Eq, PartialEq)]
pub enum Error {
    /// The word holds an expansion that cannot be performed.
    Unsupported,
}

/// Resultant string of word expansion: a string accompanied with the
/// location of the word it came from.
#[derive(Clone, Debug, Eq, PartialEq)]
pub struct Field {
    /// String value of the field.
    pub value: String,
    /// Location of the word this field resulted from.
    pub origin: Location,
}

impl Field {
    /// Creates a field whose origin is a [dummy location](Location::dummy)
    /// over the same value.
    pub fn dummy(value: &str) -> (r: Field)
        ensures
            r.value@ == value@,
            r.origin.code.value@ == value@,
            r.origin.code.source == crate::source::Source::Unknown,
            r.origin.code.start_line_number == 1,
            r.origin.range.start == 0,
            r.origin.range.end == value@.len(),
    {
        Field { value: String::from_str(value), origin: Location::dummy(value) }
    }

    /// Creates fields with dummy origins, one for each value, in order.
    pub fn dummies(values: &Vec<&str>) -> (r: Vec<Field>)
        ensures
            r@.len() == values@.len(),
            forall|i: int| 0 <= i < r@.len() ==> (#[trigger] r@[i]).value@ == values@[i]@,
    {
        let mut r: Vec<Field> = Vec::new();
        let mut i: usize = 0;
        while i < values.len()
            invariant
                i <= values@.len(),
                r@.len() == i,
                forall|k: int| 0 <= k < i ==> (#[trigger] r@[k]).value@ == values@[k]@,
            decreases values@.len() - i,
        {
            let v: &str = values[i];
            r.push(Field::dummy(v));
            i = i + 1;
        }
        r
    }
}

} // verus!
