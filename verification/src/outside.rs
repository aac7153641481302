//! The questions that only the world outside can answer: what a file holds,
//! and how two numbers compare.

use vstd::prelude::*;

use crate::host::{reply_of, HostEvent, NumberOrder};

verus! {

/// Whether `reply` is an outcome of calling `read` with the path.
pub open spec fn reads<R: Fn(&str) -> Result<String, String>>(
    read: R,
    path: Seq<char>,
    reply: Result<Seq<char>, Seq<char>>,
) -> bool {
    exists|p: &str, r: Result<String, String>| #[trigger]
        call_ensures(read, (p,), r) && p@ == path && reply_of(r) == reply
}

/// Whether `order` is an outcome of calling `compare` with the two texts.
pub open spec fn compares<O: Fn(&str, &str) -> Option<NumberOrder>>(
    compare: O,
    left: Seq<char>,
    right: Seq<char>,
    order: Option<NumberOrder>,
) -> bool {
    exists|l: &str, r: &str| #[trigger]
        call_ensures(compare, (l, r), order) && l@ == left && r@ == right
}

/// The two functions that ask the world outside. An answer is always that of
/// the function to that very question; nothing else is known of it. How often
/// a function is called is left unsaid.
pub struct Outside<
    R: Fn(&str) -> Result<String, String>,
    O: Fn(&str, &str) -> Option<NumberOrder>,
> {
    read: R,
    compare: O,
}

impl<R: Fn(&str) -> Result<String, String>, O: Fn(&str, &str) -> Option<NumberOrder>> Outside<
    R,
    O,
> {
    /// The functions can be called with any texts.
    #[verifier::type_invariant]
    spec fn callable(self) -> bool {
        &&& forall|p: &str| #[trigger] call_requires(self.read, (p,))
        &&& forall|l: &str, r: &str| #[trigger] call_requires(self.compare, (l, r))
    }

    /// The function that reads files.
    pub closed spec fn reader(&self) -> R {
        self.read
    }

    /// The function that compares numbers.
    pub closed spec fn comparer(&self) -> O {
        self.compare
    }

    /// The questions, each with an answer that the functions give to it.
    pub open spec fn answers(&self) -> Set<HostEvent> {
        Set::new(
            |e: HostEvent|
                match e {
                    HostEvent::Read { path, reply } => reads(self.reader(), path, reply),
                    HostEvent::Compared { left, right, order } => compares(
                        self.comparer(),
                        left,
                        right,
                        order,
                    ),
                    _ => false,
                },
        )
    }

    /// `read` gives a file's contents, or the reason why it cannot be read.
    /// `compare` says how two texts compare as floating-point numbers, or
    /// `None` where one of them is not written as a number.
    pub fn new(read: R, compare: O) -> (r: Self)
        requires
            forall|p: &str| #[trigger] call_requires(read, (p,)),
            forall|l: &str, r: &str| #[trigger] call_requires(compare, (l, r)),
        ensures
            r.reader() == read,
            r.comparer() == compare,
    {
        Outside { read, compare }
    }

    /// What the file holds.
    pub fn read_script_file(&self, path: &str) -> (r: Result<String, String>)
        ensures
            reads(self.reader(), path@, reply_of(r)),
    {
        proof {
            use_type_invariant(self);
        }
        (self.read)(path)
    }

    /// How the two texts compare as numbers.
    pub fn compare_numbers(&self, left: &str, right: &str) -> (r: Option<NumberOrder>)
        ensures
            compares(self.comparer(), left@, right@, r),
    {
        proof {
            use_type_invariant(self);
        }
        (self.compare)(left, right)
    }
}

} // verus!
