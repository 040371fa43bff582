//! What went wrong, in words.
use vstd::prelude::*;

use crate::dict::Duplicate;
use crate::text::Text;

verus! {

/// The messages of a failure: what was attempted comes first, what stopped it last.
#[derive(Debug, PartialEq, Eq)]
pub struct Error {
    pub chain: Vec<String>,
}

impl View for Error {
    type V = Seq<Text>;

    open spec fn view(&self) -> Seq<Text> {
        self.chain.deep_view()
    }
}

impl DeepView for Error {
    type V = Seq<Text>;

    open spec fn deep_view(&self) -> Seq<Text> {
        self@
    }
}

impl Duplicate for Error {
    fn duplicate(&self) -> (result: Self) {
        Error { chain: self.chain.duplicate() }
    }
}

impl Error {
    /// A failure with one message.
    pub fn new(message: String) -> (result: Self)
        ensures
            result@ == seq![message@],
    {
        let mut chain: Vec<String> = Vec::new();
        chain.push(message);
        let result = Error { chain };
        assert(result@ =~= seq![message@]);
        result
    }

    /// The same failure, as what stopped `message`.
    pub fn within(self, message: String) -> (result: Self)
        ensures
            result@ == seq![message@] + self@,
    {
        let ghost before = self@;
        let mut chain: Vec<String> = self.chain;
        chain.insert(0, message);
        let result = Error { chain };
        assert(result@ =~= seq![message@] + before);
        result
    }

    /// The outermost message.
    pub fn message(&self) -> (result: String)
        ensures
            self@.len() > 0 ==> result@ == self@[0],
            self@.len() == 0 ==> result@ == Seq::<char>::empty(),
    {
        if self.chain.len() > 0 {
            self.chain[0].clone()
        } else {
            String::new()
        }
    }
}

/// How a string is written as a Rust literal, quotes and escapes included.
pub uninterp spec fn literal(s: Text) -> Text;

/// `format!` with `{:?}` on a string, whose escapes std leaves to the Unicode tables that it was
/// built with. Claimed is only that the result depends on the string alone.
#[verifier::external_body]
pub(crate) fn quoted(s: &str) -> (result: String)
    ensures
        result@ == literal(s@),
{
    format!("{:?}", s)
}

} // verus!
