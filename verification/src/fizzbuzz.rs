//! The fizzbuzz service: a bounded range of numbers rendered as words or
//! decimal digits, demonstrating the same request/response shape as the
//! sorting service on a far simpler computation.

use vstd::prelude::*;
use vstd::string::StringExecFns;

use crate::decimal::{spec_decimal, u64_to_string};

verus! {

/// Maximum permitted width of the requested range, enforced before any
/// value is rendered so that the response stays small.
pub const FIZZBUZZ_CAP: u64 = 1000;

fn default_fizz() -> (r: String)
    ensures
        r@ == "Fizz"@,
{
    String::from_str("Fizz")
}

fn default_buzz() -> (r: String)
    ensures
        r@ == "Buzz"@,
{
    String::from_str("Buzz")
}

fn default_fizzer() -> (r: u64)
    ensures
        r == 3,
{
    3
}

fn default_buzzer() -> (r: u64)
    ensures
        r == 5,
{
    5
}

/// A fizzbuzz request: the range to walk, the two words, and the two
/// divisors that trigger them.
#[derive(Debug, Clone)]
pub struct FizzBuzz {
    pub from: u64,
    pub to: u64,
    pub inclusive: bool,
    pub fizz: String,
    pub buzz: String,
    pub fizzer: u64,
    pub buzzer: u64,
}

impl Default for FizzBuzz {
    /// The demonstration request: the first hundred numbers, the
    /// traditional words and divisors.
    fn default() -> (r: Self)
        ensures
            r.from == 0,
            r.to == 100,
            !r.inclusive,
            r.fizz@ == "Fizz"@,
            r.buzz@ == "Buzz"@,
            r.fizzer == 3,
            r.buzzer == 5,
    {
        FizzBuzz {
            from: 0,
            to: 100,
            inclusive: false,
            fizz: default_fizz(),
            buzz: default_buzz(),
            fizzer: default_fizzer(),
            buzzer: default_buzzer(),
        }
    }
}

/// The two numbers in ascending order.
fn min_max(a: u64, b: u64) -> (r: (u64, u64))
    ensures
        r.0 <= r.1,
        (r.0 == a && r.1 == b) || (r.0 == b && r.1 == a),
{
    if a <= b {
        (a, b)
    } else {
        (b, a)
    }
}

/// What one number of the range renders to: both words joined when both
/// divisors divide it, one word when one does, and its decimal digits
/// otherwise.
pub open spec fn spec_fizzbuzz_item(
    a: nat,
    fizz: Seq<char>,
    buzz: Seq<char>,
    fizzer: nat,
    buzzer: nat,
) -> Seq<char>
    recommends
        fizzer > 0,
        buzzer > 0,
{
    if a % fizzer == 0 && a % buzzer == 0 {
        fizz + buzz
    } else if a % buzzer == 0 {
        buzz
    } else if a % fizzer == 0 {
        fizz
    } else {
        spec_decimal(a)
    }
}

/// Why the fizzbuzz service refused a request.
#[derive(Debug, Clone, Copy, PartialEq, Eq, Structural)]
pub enum FizzBuzzError {
    /// The distance between the range's two ends exceeds the permitted
    /// `cap`.
    RangeTooWide { cap: u64, span: u64 },
}

impl FizzBuzz {
    /// The rendering of the single number `a` under this request's words
    /// and divisors.
    fn item(&self, a: u64) -> (r: String)
        requires
            self.fizzer > 0,
            self.buzzer > 0,
        ensures
            r@ == spec_fizzbuzz_item(
                a as nat,
                self.fizz@,
                self.buzz@,
                self.fizzer as nat,
                self.buzzer as nat,
            ),
    {
        if a % self.fizzer == 0 && a % self.buzzer == 0 {
            self.fizz.clone().concat(self.buzz.as_str())
        } else if a % self.buzzer == 0 {
            self.buzz.clone()
        } else if a % self.fizzer == 0 {
            self.fizz.clone()
        } else {
            u64_to_string(a)
        }
    }

    /// Walk the range and render every number, unless the range is wider
    /// than [`FIZZBUZZ_CAP`], which is refused before anything is
    /// rendered.  The range runs from the smaller end to the larger,
    /// which is excluded unless the request says `inclusive`.
    ///
    /// The divisors must be nonzero and an inclusive range must not end
    /// at the largest representable number; a dispatcher checks both
    /// before calling, as the service has no error for them.
    pub fn response(self) -> (r: Result<Vec<String>, FizzBuzzError>)
        requires
            self.fizzer > 0,
            self.buzzer > 0,
            self.inclusive ==> self.from < u64::MAX && self.to < u64::MAX,
        ensures
            ({
                let lo = vstd::math::min(self.from as int, self.to as int);
                let hi = vstd::math::max(self.from as int, self.to as int);
                let count = hi - lo + (if self.inclusive {
                    1int
                } else {
                    0int
                });
                &&& (r is Err <==> hi - lo > FIZZBUZZ_CAP)
                &&& (r matches Err(e) ==> e == (FizzBuzzError::RangeTooWide {
                    cap: FIZZBUZZ_CAP,
                    span: (hi - lo) as u64,
                }))
                &&& (r matches Ok(values) ==> {
                    &&& values@.len() == count
                    &&& forall|k: int|
                        0 <= k < count ==> (#[trigger] values@[k])@ == spec_fizzbuzz_item(
                            (lo + k) as nat,
                            self.fizz@,
                            self.buzz@,
                            self.fizzer as nat,
                            self.buzzer as nat,
                        )
                })
            }),
    {
        let (from, to) = min_max(self.from, self.to);
        if to - from > FIZZBUZZ_CAP {
            return Err(FizzBuzzError::RangeTooWide { cap: FIZZBUZZ_CAP, span: to - from });
        }
        let end = to + (if self.inclusive {
            1
        } else {
            0
        });
        let mut values: Vec<String> = Vec::new();
        let mut a = from;
        while a < end
            invariant
                from <= a <= end,
                end == to + (if self.inclusive {
                    1int
                } else {
                    0int
                }),
                self.fizzer > 0,
                self.buzzer > 0,
                values@.len() == a - from,
                forall|k: int|
                    0 <= k < values@.len() ==> (#[trigger] values@[k])@ == spec_fizzbuzz_item(
                        (from + k) as nat,
                        self.fizz@,
                        self.buzz@,
                        self.fizzer as nat,
                        self.buzzer as nat,
                    ),
            decreases end - a,
        {
            let rendered = self.item(a);
            values.push(rendered);
            a = a + 1;
        }
        Ok(values)
    }
}

} // verus!
