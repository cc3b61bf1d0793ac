//! How a stored text is read as a typed value, and how a typed value is
//! written as text. Reading never fails: a text that does not denote a value
//! of the kind that is asked for is read as the default of that kind.

use vstd::prelude::*;

pub mod integer;
pub mod string;

verus! {

/// A kind of value that a node can store as text.
pub trait Serializable<'a> {
    /// The text that stands for the value.
    spec fn text(&self) -> Seq<char>;

    /// Whether `value` is what `data` is read as.
    spec fn reads_as(data: Seq<char>, value: &Self) -> bool;

    /// What was written is read back: a value that the text of `self` is
    /// read as has the text of `self`.
    proof fn lemma_round_trip(&self, read: &Self)
        requires
            Self::reads_as(self.text(), read),
        ensures
            read.text() == self.text(),
    ;

    /// Returns the text that stands for the value.
    fn serialize(&self) -> (text: String)
        ensures
            text@ == self.text(),
    ;

    /// Returns the value that `data` is read as.
    fn deserialize(data: &'a str) -> (value: Self) where Self: Sized
        ensures
            Self::reads_as(data@, &value),
    ;
}

} // verus!
