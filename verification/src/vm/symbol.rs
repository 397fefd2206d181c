//! Symbols: names that are equal when they read the same.

use vstd::prelude::*;
use vstd::std_specs::cmp::PartialEqSpecImpl;
use vstd::string::StringExecFns;

verus! {

/// A name that stands for itself. Two symbols are equal when their names are.
#[derive(Debug, Eq, Hash)]
pub struct Symbol {
    content: String,
}

impl View for Symbol {
    type V = Seq<char>;

    /// The symbol's name.
    closed spec fn view(&self) -> Seq<char> {
        self.content@
    }
}

impl Symbol {
    /// The symbol with this name.
    pub fn new(content: String) -> (symbol: Symbol)
        ensures
            symbol@ == content@,
    {
        Symbol { content }
    }

    /// The symbol as it is written: a pound sign and its name.
    pub fn to_string(&self) -> (text: String)
        ensures
            text@ == seq!['#'] + self@,
    {
        let mut text = String::from_str("#");
        proof {
            reveal_strlit("#");
            assert("#"@ =~= seq!['#']);
        }
        text.append(self.content.as_str());
        text
    }
}

impl PartialEq for Symbol {
    fn eq(&self, other: &Symbol) -> (equal: bool) {
        self.content == other.content
    }
}

impl PartialEqSpecImpl for Symbol {
    open spec fn obeys_eq_spec() -> bool {
        true
    }

    open spec fn eq_spec(&self, other: &Symbol) -> bool {
        self@ == other@
    }
}

} // verus!
