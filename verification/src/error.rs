//! The failures that the library reports.

use vstd::prelude::*;
use vstd::string::StringExecFns;

verus! {

/// Why an operation gave no result. No operation that fails leaves a partial
/// result behind.
#[derive(Debug, PartialEq, Eq)]
pub enum Error {
    /// The kernel's module tree is there but its descriptor could not be
    /// read.
    DescriptorUnreadable,
    /// A line of the live module table is not in the expected format.
    LiveTableMalformed,
    /// A requested module resolved to a path that the index does not hold.
    UnknownModule(String),
}

impl Error {
    /// The failure in words.
    pub open spec fn text(self) -> Seq<char> {
        match self {
            Error::DescriptorUnreadable => "module descriptor is unreadable"@,
            Error::LiveTableMalformed => "live module table is malformed"@,
            Error::UnknownModule(name) => "unknown module: "@ + name@,
        }
    }

    /// The failure in words.
    pub fn message(&self) -> (r: String)
        ensures
            r@ == self.text(),
    {
        match self {
            Error::DescriptorUnreadable => "module descriptor is unreadable".to_string(),
            Error::LiveTableMalformed => "live module table is malformed".to_string(),
            Error::UnknownModule(name) => {
                let mut r = "unknown module: ".to_string();
                r.append(name.as_str());
                r
            },
        }
    }
}

} // verus!
