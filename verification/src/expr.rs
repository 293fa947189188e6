use vstd::prelude::*;

verus! {

/// A single variable occurrence: its letter and its unary sign decoration,
/// one of `""`, `"-"`, `"~"`, `"-~"`, `"~-"`.
pub struct VarTerm {
    pub val: char,
    pub sign: String,
}

impl VarTerm {
    /// The printable form of a variable occurrence: the sign immediately
    /// followed by the letter.
    pub open spec fn spec_str(&self) -> Seq<char> {
        self.sign@ + seq![self.val]
    }
}

} // verus!
