//! Handles for the names of crates.

use crate::feature::distinct_names;
use vstd::prelude::*;

verus! {

/// A table of `string_interner` with its default backend and symbols: each
/// string that it has got, once.
#[verifier::external_body]
pub struct NameTable {
    inner: string_interner::DefaultStringInterner,
}

/// The strings that the table holds, in the order in which it got them.
pub uninterp spec fn table_names(table: NameTable) -> Seq<Seq<char>>;

/// Calls `StringInterner::new`, which makes a table without strings.
#[verifier::external_body]
fn new_table() -> (table: NameTable)
    ensures
        table_names(table).len() == 0,
{
    NameTable { inner: string_interner::StringInterner::new() }
}

/// Calls `StringInterner::get_or_intern` and `Symbol::to_usize`. The table
/// hands back the symbol of a string that it has; a string that it lacks is
/// put at the end of its buffer and gets the next symbol, whose number is the
/// count of the strings before it. The symbol after `u32::MAX - 1` makes it
/// panic, so the table may not be that full.
#[verifier::external_body]
fn table_intern(table: &mut NameTable, name: &str) -> (symbol: u32)
    requires
        table_names(*old(table)).len() < u32::MAX,
    ensures
        table_names(*old(table)).contains(name@) ==> table_names(*final(table)) == table_names(
            *old(table),
        ),
        !table_names(*old(table)).contains(name@) ==> table_names(*final(table)) == table_names(
            *old(table),
        ).push(name@),
        symbol < table_names(*final(table)).len(),
        table_names(*final(table))[symbol as int] == name@,
{
    string_interner::Symbol::to_usize(table.inner.get_or_intern(name)) as u32
}

/// Calls `Symbol::try_from_usize` and `StringInterner::resolve`, which gives
/// the string of a symbol that the table has handed out, and `None` for
/// another.
#[verifier::external_body]
fn table_resolve(table: &NameTable, symbol: u32) -> (name: Option<&str>)
    ensures
        match name {
            Some(name) => symbol < table_names(*table).len() && name@ == table_names(
                *table,
            )[symbol as int],
            None => symbol >= table_names(*table).len(),
        },
{
    let symbol = string_interner::Symbol::try_from_usize(symbol as usize)?;
    table.inner.resolve(symbol)
}

/// The handle of an interned name of a crate.
#[derive(Copy, Clone, PartialEq, Eq, Structural, PartialOrd, Ord, Hash, Debug)]
pub struct CrateName {
    value: u32,
}

impl CrateName {
    pub closed spec fn spec_index(self) -> u32 {
        self.value
    }

    /// The place of the name in the table of its interner.
    #[verifier::when_used_as_spec(spec_index)]
    pub fn index(self) -> (i: u32)
        ensures
            i == self.spec_index(),
    {
        self.value
    }
}

/// The names of crates, each with a handle. A name gets its handle when it
/// is first seen and keeps it.
pub struct Interner {
    table: NameTable,
}

impl View for Interner {
    type V = Seq<Seq<char>>;

    /// The names in the order of their handles.
    closed spec fn view(&self) -> Seq<Seq<char>> {
        table_names(self.table)
    }
}

impl Interner {
    /// No name stands twice, and a handle can count the names.
    pub open spec fn wf(&self) -> bool {
        self@.len() <= u32::MAX && distinct_names(self@)
    }

    /// An interner without names.
    pub fn new() -> (interner: Interner)
        ensures
            interner.wf(),
            interner@.len() == 0,
    {
        Interner { table: new_table() }
    }

    /// The handle of `string`; a name not seen before gets the next one.
    pub fn crate_name(&mut self, string: &str) -> (name: CrateName)
        requires
            old(self).wf(),
            old(self)@.len() < u32::MAX,
        ensures
            final(self).wf(),
            name.index() < final(self)@.len(),
            final(self)@[name.index() as int] == string@,
            old(self)@.contains(string@) ==> final(self)@ == old(self)@,
            !old(self)@.contains(string@) ==> final(self)@ == old(self)@.push(string@)
                && name.index() == old(self)@.len(),
    {
        let value = table_intern(&mut self.table, string);
        proof {
            let before = old(self)@;
            let after = self@;
            if !before.contains(string@) {
                assert forall|i: int, j: int| 0 <= i < j < after.len() implies #[trigger] after[i]
                    != #[trigger] after[j] by {
                    if j == before.len() {
                        assert(before[i] == after[i]);
                        assert(before.contains(after[i]));
                    }
                }
                if value < before.len() {
                    assert(after[value as int] == before[value as int]);
                    assert(before.contains(string@));
                }
            }
        }
        CrateName { value }
    }

    /// The name behind a handle, `None` for a handle of another interner
    /// that this one has not reached.
    pub fn resolve(&self, name: CrateName) -> (string: Option<&str>)
        ensures
            match string {
                Some(string) => name.index() < self@.len() && string@ == self@[name.index() as int],
                None => name.index() >= self@.len(),
            },
    {
        table_resolve(&self.table, name.value)
    }
}

/// A release of a crate by the crate's name and the place of the release
/// among the releases of the crate.
#[derive(Copy, Clone, PartialEq, Eq, Structural, PartialOrd, Ord, Hash, Debug)]
pub struct CrateKey {
    pub name: CrateName,
    pub index: u32,
}

impl CrateKey {
    pub fn new(name: CrateName, index: u32) -> (key: CrateKey)
        ensures
            key == (CrateKey { name, index }),
    {
        CrateKey { name, index }
    }
}

} // verus!
