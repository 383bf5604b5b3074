//! The catalogue record of a category.

use vstd::prelude::*;
use vstd::string::StringExecFns;

verus! {

/// One record of the category catalogue.
#[derive(Debug, Clone)]
pub struct Category {
    pub parent: String,
    pub category: String,
    pub url: String,
}

impl Category {
    /// The display text of a record: parent, one space, category.
    pub open spec fn label(&self) -> Seq<char> {
        self.parent@ + seq![' '] + self.category@
    }

    /// Renders the record as `"{parent} {category}"`.
    pub fn to_string(&self) -> (text: String)
        ensures
            text@ == self.label(),
    {
        proof {
            reveal_strlit(" ");
        }
        let mut text = self.parent.clone();
        text.append(" ");
        text.append(self.category.as_str());
        text
    }
}

} // verus!
