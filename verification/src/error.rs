//! Why an operation is refused.

use vstd::prelude::*;

verus! {

/// What is wrong with bytes that were read from a file.
#[derive(Debug, Clone, Copy, PartialEq, Eq, Structural)]
pub enum Fault {
    /// The first page does not start with the magic.
    BadMagic,
    /// A slot or a tuple that an operation leads to is not inside its page.
    BadPage,
    /// A page on the way down does not lead to a child, or cannot take a separator.
    BadInternalPage,
    /// A leaf cannot be written: it cannot be read whole, it holds an entry larger than any that
    /// the tree accepts, or its entries do not fit in a page.
    BadLeafPage,
    /// The separator of a split is in the parent already.
    DuplicateSeparator,
    /// The chain of leaves does not end.
    EndlessChain,
}

impl Fault {
    pub fn message(&self) -> (m: &'static str)
        ensures
            m@ == match self {
                Fault::BadMagic => "bad magic"@,
                Fault::BadPage => "bad page"@,
                Fault::BadInternalPage => "bad internal page"@,
                Fault::BadLeafPage => "bad leaf page"@,
                Fault::DuplicateSeparator => "duplicate separator"@,
                Fault::EndlessChain => "endless chain of leaves"@,
            },
    {
        match self {
            Fault::BadMagic => "bad magic",
            Fault::BadPage => "bad page",
            Fault::BadInternalPage => "bad internal page",
            Fault::BadLeafPage => "bad leaf page",
            Fault::DuplicateSeparator => "duplicate separator",
            Fault::EndlessChain => "endless chain of leaves",
        }
    }
}

/// Why an operation is refused.
#[derive(Debug, Clone, Copy, PartialEq, Eq, Structural)]
pub enum Error {
    Io(Fault),
    EntryTooLarge { key: usize, value: usize, limit: usize },
    KeyTooLarge { key: usize, limit: usize },
    Frozen,
}

pub type Result<T> = std::result::Result<T, Error>;

/// The operation was refused for the reason `e`.
pub open spec fn refused<T>(r: Result<T>, e: Error) -> bool {
    match r {
        Ok(_) => false,
        Err(x) => x == e,
    }
}

} // verus!
