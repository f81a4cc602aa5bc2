//! Content filters: what a subscription asks to have filtered out.
use std::collections::HashMap;
use vstd::prelude::*;

verus! {

/// A content filter. The expression is kept as it is, for whoever evaluates it.
#[derive(Clone)]
pub struct ContentFilter {
    /// The filter's name.
    pub name: String,
    /// The filter expression, in the manner of SQL.
    pub expression: String,
    /// The parameters of the expression, by name.
    pub parameters: HashMap<String, String>,
}

impl ContentFilter {
    /// A filter.
    pub fn new(name: &str, expression: &str, parameters: HashMap<String, String>) -> (r:
        ContentFilter)
        ensures
            r.name@ == name@,
            r.expression@ == expression@,
            r.parameters == parameters,
    {
        ContentFilter { name: name.to_owned(), expression: expression.to_owned(), parameters }
    }

    /// Whether the filter has no expression, and so filters nothing.
    pub fn is_empty(&self) -> (r: bool)
        ensures
            r == (self.expression@.len() == 0),
    {
        self.expression.as_str().is_empty()
    }
}

} // verus!
