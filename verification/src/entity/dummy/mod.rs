use vstd::prelude::*;
use vstd::string::*;

mod comosition;
mod component;
mod port;

use crate::entity::Signature;
use crate::text::{decimal, usize_to_string};

verus! {

/// Hands out signatures with ids counted up from a start value.
#[derive(Debug)]
pub struct SignatureProducer {
    current: usize,
}

/// The class name of the n-th made-up signature.
pub open spec fn dummy_class(n: nat) -> Seq<char> {
    "DummyClass_"@ + decimal(n)
}

/// The short name of the n-th made-up signature.
pub open spec fn dummy_short(n: nat) -> Seq<char> {
    "DummySN_"@ + decimal(n)
}

impl SignatureProducer {
    /// The last id handed out (or the start value).
    pub closed spec fn value(&self) -> usize {
        self.current
    }

    pub fn new(current: usize) -> (res: Self)
        ensures
            res.value() == current,
    {
        Self { current }
    }

    /// The next signature, with made-up names.
    pub fn next(&mut self) -> (res: Signature)
        requires
            old(self).value() < usize::MAX,
        ensures
            final(self).value() == old(self).value() + 1,
            res.id == final(self).value(),
            res.class_name@ == dummy_class(res.id as nat),
            res.short_name@ == dummy_short(res.id as nat),
    {
        self.current = self.current + 1;
        let mut class_name = String::from_str("DummyClass_");
        class_name.append(usize_to_string(self.current).as_str());
        let mut short_name = String::from_str("DummySN_");
        short_name.append(usize_to_string(self.current).as_str());
        Signature { id: self.current, class_name, short_name }
    }

    /// The next signature, with the given text as both names.
    pub fn next_for(&mut self, class_name: &str) -> (res: Signature)
        requires
            old(self).value() < usize::MAX,
        ensures
            final(self).value() == old(self).value() + 1,
            res.id == final(self).value(),
            res.class_name@ == class_name@,
            res.short_name@ == class_name@,
    {
        self.current = self.current + 1;
        Signature {
            id: self.current,
            class_name: String::from_str(class_name),
            short_name: String::from_str(class_name),
        }
    }
}

/// `rand::random::<bool>()`: a fair coin; nothing is known of the outcome.
#[verifier::external_body]
pub(crate) fn random_bool() -> (res: bool) {
    rand::random::<bool>()
}

/// `Rng::gen_range` on an inclusive range, with the thread's generator: a number from `lo` to
/// `hi`, both included. The range must not be empty (else it panics).
#[verifier::external_body]
pub(crate) fn random_in(lo: usize, hi: usize) -> (res: usize)
    requires
        lo <= hi,
    ensures
        lo <= res <= hi,
{
    rand::Rng::gen_range(&mut rand::thread_rng(), lo..=hi)
}

/// Entities that can be made up for trying the board out.
pub trait Dummy<T, O> {
    /// How many signatures making one takes at most.
    spec fn signatures_needed(options: O) -> nat;

    /// The options describe something that can be made.
    spec fn accepts(options: O) -> bool;

    fn dummy(producer: &mut SignatureProducer, options: O) -> (res: T)
        requires
            Self::accepts(options),
            old(producer).value() + Self::signatures_needed(options) <= usize::MAX,
        ensures
            old(producer).value() <= final(producer).value() <= old(producer).value()
                + Self::signatures_needed(options),
    ;
}

} // verus!
