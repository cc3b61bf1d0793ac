//! Text as text.

use crate::lexical::Serializable;
use vstd::prelude::*;

verus! {

impl Serializable<'_> for String {
    open spec fn text(&self) -> Seq<char> {
        self@
    }

    open spec fn reads_as(data: Seq<char>, value: &Self) -> bool {
        value@ == data
    }

    proof fn lemma_round_trip(&self, read: &Self) {
    }

    fn serialize(&self) -> (text: String) {
        self.clone()
    }

    fn deserialize(data: &str) -> (value: Self) {
        data.to_owned()
    }
}

impl<'a> Serializable<'a> for &'a str {
    open spec fn text(&self) -> Seq<char> {
        self@
    }

    open spec fn reads_as(data: Seq<char>, value: &Self) -> bool {
        value@ == data
    }

    proof fn lemma_round_trip(&self, read: &Self) {
    }

    fn serialize(&self) -> (text: String) {
        (*self).to_string()
    }

    fn deserialize(data: &'a str) -> (value: Self) {
        data
    }
}

/// A text is read back as it was written: what the text of `written` is
/// read as has the characters of `written`.
pub proof fn lemma_text_round_trip(written: String, read: String)
    requires
        <String as Serializable>::reads_as(written.text(), &read),
    ensures
        read@ == written@,
{
}

} // verus!
