//! The reference table: every known symbol, keyed by its identifier.

use crate::symbol::Symbol;
use vstd::prelude::*;

verus! {

/// An immutable catalogue of symbols with pairwise distinct identifiers.
pub struct SymbolTable {
    ids: Vec<String>,
    symbols: Vec<Symbol>,
}

/// Whether two symbols of `s` share an identifier.
pub open spec fn has_duplicate_id(s: Seq<Symbol>) -> bool {
    exists|i: int, j: int|
        0 <= i < j < s.len() && #[trigger] s[i].spec_id() == #[trigger] s[j].spec_id()
}

/// Whether some symbol of `s` has identifier `id`.
pub open spec fn has_id(s: Seq<Symbol>, id: Seq<char>) -> bool {
    exists|i: int| 0 <= i < s.len() && #[trigger] s[i].spec_id() == id
}

/// The position of a symbol of `s` whose identifier is `id`; meaningful when
/// `s` holds one.
pub open spec fn position_in(s: Seq<Symbol>, id: Seq<char>) -> int {
    choose|i: int| 0 <= i < s.len() && #[trigger] s[i].spec_id() == id
}

/// The symbol of `s` whose identifier is `id`, if `s` holds one.
pub open spec fn lookup_in(s: Seq<Symbol>, id: Seq<char>) -> Option<Symbol> {
    if has_id(s, id) {
        Some(s[position_in(s, id)])
    } else {
        None
    }
}

/// The symbols of detexify's built-in catalogue, in the order in which it
/// lists them.
pub uninterp spec fn builtin_symbols(u: ()) -> Seq<Symbol>;

impl SymbolTable {
    /// The symbols of the table, in the order they were given.
    pub closed spec fn view(&self) -> Seq<Symbol> {
        self.symbols@
    }

    /// Identifiers are stored beside their symbols and are pairwise distinct.
    pub closed spec fn wf(&self) -> bool {
        &&& self.ids@.len() == self.symbols@.len()
        &&& forall|i: int| 0 <= i < self.ids@.len() ==> #[trigger] self.ids@[i]@ == self.symbols@[i].spec_id()
        &&& !has_duplicate_id(self.symbols@)
    }

    /// Whether some symbol of the table has identifier `id`.
    pub open spec fn contains_id(&self, id: Seq<char>) -> bool {
        has_id(self@, id)
    }

    /// The position of a symbol whose identifier is `id`; meaningful when
    /// the table holds one.
    pub open spec fn index_of(&self, id: Seq<char>) -> int {
        position_in(self@, id)
    }

    /// The symbol whose identifier is `id`, if the table holds one.
    pub open spec fn spec_lookup(&self, id: Seq<char>) -> Option<Symbol> {
        lookup_in(self@, id)
    }

    /// Builds a table from `symbols`, keeping their order. Returns `None`
    /// when two of them have the same identifier.
    pub fn from_symbols(symbols: Vec<Symbol>) -> (r: Option<SymbolTable>)
        ensures
            r is Some <==> !has_duplicate_id(symbols@),
            r matches Some(t) ==> t.wf() && t@ == symbols@,
    {
        let mut ids: Vec<String> = Vec::new();
        let mut i: usize = 0;
        while i < symbols.len()
            invariant
                i <= symbols@.len(),
                ids@.len() == i,
                forall|k: int| 0 <= k < i ==> #[trigger] ids@[k]@ == symbols@[k].spec_id(),
                !has_duplicate_id(symbols@.subrange(0, i as int)),
            decreases symbols@.len() - i,
        {
            let id = symbols[i].id();
            let mut k: usize = 0;
            while k < i
                invariant
                    i < symbols@.len(),
                    k <= i,
                    ids@.len() == i,
                    id@ == symbols@[i as int].spec_id(),
                    forall|m: int| 0 <= m < i ==> #[trigger] ids@[m]@ == symbols@[m].spec_id(),
                    forall|m: int| 0 <= m < k ==> #[trigger] ids@[m]@ != id@,
                decreases i - k,
            {
                if ids[k] == id {
                    assert(symbols@[k as int].spec_id() == symbols@[i as int].spec_id());
                    return None;
                }
                k = k + 1;
            }
            proof {
                let prefix = symbols@.subrange(0, i + 1);
                assert forall|a: int, b: int| 0 <= a < b < prefix.len() implies
                    #[trigger] prefix[a].spec_id() != #[trigger] prefix[b].spec_id() by {
                    if b < i {
                        assert(prefix[a] == symbols@.subrange(0, i as int)[a]);
                        assert(prefix[b] == symbols@.subrange(0, i as int)[b]);
                    } else {
                        assert(ids@[a]@ != id@);
                    }
                }
            }
            ids.push(id);
            i = i + 1;
        }
        assert(symbols@.subrange(0, symbols@.len() as int) =~= symbols@);
        Some(SymbolTable { ids, symbols })
    }

    /// The reference table of every symbol that the recogniser knows, in
    /// the order of the built-in catalogue.
    pub fn reference() -> (r: SymbolTable)
        ensures
            r.wf(),
            r@ == builtin_symbols(()),
    {
        match SymbolTable::from_symbols(catalogue()) {
            Some(t) => t,
            None => SymbolTable { ids: Vec::new(), symbols: Vec::new() },
        }
    }

    /// Number of symbols in the table.
    pub fn len(&self) -> (r: usize)
        requires
            self.wf(),
        ensures
            r == self@.len(),
    {
        self.symbols.len()
    }

    /// All symbols of the table.
    pub fn symbols(&self) -> (r: &Vec<Symbol>)
        ensures
            r@ == self@,
    {
        &self.symbols
    }

    /// The position of the symbol whose identifier is `id`, if the table
    /// holds one.
    pub fn position_of(&self, id: &str) -> (r: Option<usize>)
        requires
            self.wf(),
        ensures
            r matches Some(i) ==> i < self@.len() && self@[i as int].spec_id() == id@,
            r is None ==> !self.contains_id(id@),
    {
        let key = id.to_owned();
        let mut i: usize = 0;
        while i < self.ids.len()
            invariant
                self.wf(),
                key@ == id@,
                i <= self@.len(),
                forall|m: int| 0 <= m < i ==> #[trigger] self@[m].spec_id() != id@,
            decreases self@.len() - i,
        {
            if self.ids[i] == key {
                return Some(i);
            }
            i = i + 1;
        }
        None
    }

    /// Looks up the symbol whose identifier is `id`.
    pub fn lookup(&self, id: &str) -> (r: Option<&Symbol>)
        requires
            self.wf(),
        ensures
            r matches Some(s) ==> self.spec_lookup(id@) == Some(*s),
            r is None ==> self.spec_lookup(id@) is None,
    {
        match self.position_of(id) {
            Some(i) => {
                proof {
                    lemma_lookup_own_id(self, i as int);
                }
                Some(&self.symbols[i])
            },
            None => None,
        }
    }

    /// The identifier of the symbol at position `i`.
    pub fn id_at(&self, i: usize) -> (r: &String)
        requires
            self.wf(),
            i < self@.len(),
        ensures
            r@ == self@[i as int].spec_id(),
    {
        &self.ids[i]
    }
}

/// Relies on detexify's `iter_symbols`: the symbols of its built-in
/// catalogue, each converted field by field. The catalogue is a map built
/// by phf_codegen, which refuses a repeated key, keyed by the base32 form of
/// the same `package-font_encoding-command` text that identifiers encode, so
/// no two of its symbols share an identifier.
#[verifier::external_body]
fn catalogue() -> (r: Vec<Symbol>)
    ensures
        r@ == builtin_symbols(()),
        !has_duplicate_id(r@),
{
    detexify::iter_symbols()
        .map(|s| Symbol::new(s.command, s.package, s.font_encoding, s.text_mode, s.math_mode))
        .collect()
}

impl Symbol {
    /// Returns the symbol of the built-in catalogue that `id` identifies.
    pub fn from_id(id: &str) -> (r: Option<Symbol>)
        ensures
            r == lookup_in(builtin_symbols(()), id@),
    {
        let symbols = catalogue();
        let key = id.to_owned();
        let mut i: usize = 0;
        while i < symbols.len()
            invariant
                symbols@ == builtin_symbols(()),
                !has_duplicate_id(symbols@),
                key@ == id@,
                i <= symbols@.len(),
                forall|m: int| 0 <= m < i ==> #[trigger] symbols@[m].spec_id() != id@,
            decreases symbols@.len() - i,
        {
            if symbols[i].id() == key {
                proof {
                    let c = position_in(symbols@, id@);
                    assert(has_id(symbols@, id@));
                    if c < i {
                        assert(symbols@[c].spec_id() == symbols@[i as int].spec_id());
                    } else if c > i {
                        assert(symbols@[i as int].spec_id() == symbols@[c].spec_id());
                    }
                }
                return Some(symbols[i].duplicate());
            }
            i = i + 1;
        }
        None
    }
}

/// Two positions of a table that hold the same identifier are one position.
pub proof fn lemma_id_determines_position(t: &SymbolTable, i: int, j: int)
    requires
        t.wf(),
        0 <= i < t@.len(),
        0 <= j < t@.len(),
        t@[i].spec_id() == t@[j].spec_id(),
    ensures
        i == j,
{
    if i < j {
        assert(t.symbols@[i].spec_id() == t.symbols@[j].spec_id());
    } else if j < i {
        assert(t.symbols@[j].spec_id() == t.symbols@[i].spec_id());
    }
}

/// The position found for the identifier of the symbol at `i` is `i`.
pub proof fn lemma_index_of(t: &SymbolTable, i: int)
    requires
        t.wf(),
        0 <= i < t@.len(),
    ensures
        t.index_of(t@[i].spec_id()) == i,
{
    let id = t@[i].spec_id();
    assert(t.contains_id(id));
    lemma_id_determines_position(t, i, t.index_of(id));
}

/// Every symbol of a table is found again under its own identifier.
pub proof fn lemma_lookup_own_id(t: &SymbolTable, i: int)
    requires
        t.wf(),
        0 <= i < t@.len(),
    ensures
        t.spec_lookup(t@[i].spec_id()) == Some(t@[i]),
{
    let id = t@[i].spec_id();
    assert(t.contains_id(id));
    let c = choose|c: int| 0 <= c < t@.len() && #[trigger] t@[c].spec_id() == id;
    if c != i {
        assert(t.symbols@[c].spec_id() == t.symbols@[i].spec_id());
    }
}

} // verus!
