//! The sorting service: the request and response types, the bounds guard
//! that rejects oversized input before any computation, and the parsing of
//! algorithm tags.

pub mod algorithm;
pub mod step;

use vstd::prelude::*;
use vstd::string::StrSliceExecFns;

use crate::sort::algorithm::{run_post, Algorithm};
use crate::sort::step::StepAction;

verus! {

/// Maximum permitted number of values in one request, enforced before any
/// algorithm executes so that the worst-case work stays finite.
pub const CAP: usize = 20;

/// The value buffer of a sort request.
#[derive(Debug, Clone)]
pub struct Data {
    pub values: Vec<i64>,
}

impl Default for Data {
    /// The demonstration buffer used when a request carries no values.
    fn default() -> (r: Self)
        ensures
            r.values@ == seq![10i64, 9i64, 8i64, 7i64, 6i64, 5i64, 4i64, 3i64, 2i64, 1i64],
    {
        let values = vec![10i64, 9i64, 8i64, 7i64, 6i64, 5i64, 4i64, 3i64, 2i64, 1i64];
        proof {
            assert(values@ =~= seq![10i64, 9i64, 8i64, 7i64, 6i64, 5i64, 4i64, 3i64, 2i64, 1i64]);
        }
        Data { values }
    }
}

/// A sort request: the values to sort and the algorithm to run them
/// through.  The engine consumes the values by value; a request is built,
/// run once and discarded.
#[derive(Debug, Clone)]
pub struct Sort {
    pub data: Data,
    pub algorithm: Algorithm,
}

impl Default for Sort {
    /// The demonstration request: the default buffer, bubble sorted.
    fn default() -> (r: Self)
        ensures
            r.data.values@ == seq![10i64, 9i64, 8i64, 7i64, 6i64, 5i64, 4i64, 3i64, 2i64, 1i64],
            r.algorithm == Algorithm::Bubble,
    {
        Sort { data: Data::default(), algorithm: Algorithm::Bubble }
    }
}

/// Why the sorting service refused a request.
#[derive(Debug, Clone, Copy, PartialEq, Eq, Structural)]
pub enum SortError {
    /// The validation error: the request held `len` values, more than the
    /// permitted `cap`.  Raised by the bounds guard before the engine is
    /// ever invoked.
    TooManyValues { cap: usize, len: usize },
    /// The malformed-input error: the request named an algorithm that the
    /// service does not recognise.  Raised before any sort logic runs.
    UnknownAlgorithm,
}

impl SortError {
    /// The human-readable message carried by the error response.
    pub fn message(&self) -> (r: String)
        ensures
            *self is TooManyValues ==> r@ == "The number of values must be fewer than 20"@,
            *self is UnknownAlgorithm ==> r@ == "Unknown sorting algorithm"@,
    {
        match self {
            SortError::TooManyValues { .. } => "The number of values must be fewer than 20"
                .to_owned(),
            SortError::UnknownAlgorithm => "Unknown sorting algorithm".to_owned(),
        }
    }
}

/// The outcome of one sort invocation: the sorted values and the ordered
/// trace of the steps the algorithm performed.
#[derive(Debug, PartialEq)]
pub struct SortResult {
    pub values: Vec<i64>,
    pub steps: Vec<StepAction>,
}

impl Sort {
    /// Assemble a request from a parsed body; a request that names no
    /// algorithm defaults to bubble sort.
    pub fn create(data: Data, algorithm: Option<Algorithm>) -> (r: Sort)
        ensures
            r.data == data,
            algorithm matches Some(a) ==> r.algorithm == a,
            algorithm is None ==> r.algorithm == Algorithm::Bubble,
    {
        match algorithm {
            Some(algorithm) => Sort { data, algorithm },
            None => Sort { data, algorithm: Algorithm::default() },
        }
    }

    /// The bounds guard and the engine: a request with more than [`CAP`]
    /// values is refused with the validation error before any trace buffer
    /// is allocated or any algorithm runs; any other request is sorted,
    /// and the result pair satisfies everything
    /// [`run_post`](crate::sort::algorithm::run_post) states.
    pub fn response(self) -> (r: Result<SortResult, SortError>)
        ensures
            r is Err <==> self.data.values@.len() > CAP,
            r matches Err(e) ==> e == (SortError::TooManyValues {
                cap: CAP,
                len: self.data.values@.len() as usize,
            }),
            r matches Ok(res) ==> run_post(self.algorithm, self.data.values@, res.values@, res.steps@),
    {
        if self.data.values.len() > CAP {
            Err(SortError::TooManyValues { cap: CAP, len: self.data.values.len() })
        } else {
            let (values, steps) = self.algorithm.run(self.data.values);
            Ok(SortResult { values, steps })
        }
    }
}

/// The algorithm each recognised request tag names: the four lowercase
/// algorithm names, and nothing else.
pub open spec fn spec_parse_algorithm(s: Seq<char>) -> Option<Algorithm> {
    if s == "bubble"@ {
        Some(Algorithm::Bubble)
    } else if s == "merge"@ {
        Some(Algorithm::Merge)
    } else if s == "insertion"@ {
        Some(Algorithm::Insertion)
    } else if s == "selection"@ {
        Some(Algorithm::Selection)
    } else {
        None
    }
}

/// Character-for-character equality of two strings.
fn str_eq(a: &str, b: &str) -> (r: bool)
    ensures
        r == (a@ == b@),
{
    let alen = a.unicode_len();
    let blen = b.unicode_len();
    if alen != blen {
        return false;
    }
    for k in 0..alen
        invariant
            alen == a@.len(),
            alen == b@.len(),
            forall|t: int| 0 <= t < k as int ==> a@[t] == b@[t],
    {
        if a.get_char(k) != b.get_char(k) {
            return false;
        }
    }
    proof {
        assert(a@ =~= b@);
    }
    true
}

impl Algorithm {
    /// The algorithm named by a request tag, or `None` for a tag the
    /// service does not recognise (which a dispatcher reports as malformed
    /// input before any sort logic runs).
    pub fn parse(tag: &str) -> (r: Option<Algorithm>)
        ensures
            r == spec_parse_algorithm(tag@),
    {
        if str_eq(tag, "bubble") {
            Some(Algorithm::Bubble)
        } else if str_eq(tag, "merge") {
            Some(Algorithm::Merge)
        } else if str_eq(tag, "insertion") {
            Some(Algorithm::Insertion)
        } else if str_eq(tag, "selection") {
            Some(Algorithm::Selection)
        } else {
            None
        }
    }
}

} // verus!

