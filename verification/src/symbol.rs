//! The symbols of the tableau.
use crate::table::Key;
use vstd::prelude::*;

verus! {

/// What a symbol stands for.
#[derive(Clone, Copy, Debug, PartialEq, Eq, Structural)]
pub enum SymbolKind {
    /// A variable of the user, which may take any value.
    External,
    /// The slack of an inequality.
    Slack,
    /// How far a constraint that is not required is missed.
    Error,
    /// The marker of a required equation, which never enters the basis by a pivot.
    Dummy,
}

/// How many symbols can be told apart.
pub const SYMBOL_LIMIT: u64 = 0x4000_0000_0000_0000;

/// A symbol: a number and a kind, packed so that symbols are ordered by their numbers.
#[derive(Clone, Copy, Debug, PartialEq, Eq, Structural)]
pub struct Symbol {
    pub raw: u64,
}

/// The symbol with the given number and kind.
pub open spec fn symbol(id: nat, kind: SymbolKind) -> Symbol {
    Symbol {
        raw: (4 * id + (match kind {
            SymbolKind::External => 0int,
            SymbolKind::Slack => 1,
            SymbolKind::Error => 2,
            SymbolKind::Dummy => 3,
        })) as u64,
    }
}

impl Symbol {
    /// The number of the symbol.
    pub open spec fn id(self) -> nat {
        self.raw as nat / 4
    }

    /// The kind of the symbol.
    pub open spec fn sort(self) -> SymbolKind {
        let k = self.raw % 4;
        if k == 0 {
            SymbolKind::External
        } else if k == 1 {
            SymbolKind::Slack
        } else if k == 2 {
            SymbolKind::Error
        } else {
            SymbolKind::Dummy
        }
    }

    /// Whether the symbol stands for a variable of the user.
    pub open spec fn external(self) -> bool {
        self.sort() is External
    }

    /// Whether the symbol may be chosen to restore feasibility: a slack or an error.
    pub open spec fn pivotable(self) -> bool {
        self.sort() is Slack || self.sort() is Error
    }

    /// Gives the symbol with the given number and kind.
    pub(crate) fn new(id: u64, kind: SymbolKind) -> (r: Symbol)
        requires
            id < SYMBOL_LIMIT,
        ensures
            r == symbol(id as nat, kind),
            r.id() == id,
            r.sort() == kind,
    {
        let k: u64 = match kind {
            SymbolKind::External => 0,
            SymbolKind::Slack => 1,
            SymbolKind::Error => 2,
            SymbolKind::Dummy => 3,
        };
        Symbol { raw: 4 * id + k }
    }

    /// Gives the kind of the symbol.
    pub(crate) fn kind(self) -> (r: SymbolKind)
        ensures
            r == self.sort(),
    {
        let k: u64 = self.raw % 4;
        if k == 0 {
            SymbolKind::External
        } else if k == 1 {
            SymbolKind::Slack
        } else if k == 2 {
            SymbolKind::Error
        } else {
            SymbolKind::Dummy
        }
    }

    /// Tells whether the symbol stands for a variable of the user.
    pub(crate) fn is_external(self) -> (r: bool)
        ensures
            r == self.external(),
    {
        self.raw % 4 == 0
    }

    /// Tells whether the symbol is a slack or an error.
    pub(crate) fn is_pivotable(self) -> (r: bool)
        ensures
            r == self.pivotable(),
    {
        self.raw % 4 == 1 || self.raw % 4 == 2
    }
}

impl Key for Symbol {
    open spec fn word(self) -> u64 {
        self.raw
    }

    proof fn distinct(a: Self, b: Self) {
    }

    fn to_word(self) -> (w: u64) {
        self.raw
    }
}

} // verus!
