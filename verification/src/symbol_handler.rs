//! The symbol table: which address each name of a program stands for.

use vstd::prelude::*;
use vstd::hash_map::StringHashMap;
use crate::error::AssemblyError;

verus! {

/// The names that every program knows, each with its address.
pub open spec fn predefined_symbols() -> Seq<(Seq<char>, u16)> {
    seq![
        ("R0"@, 0u16),
        ("R1"@, 1u16),
        ("R2"@, 2u16),
        ("R3"@, 3u16),
        ("R4"@, 4u16),
        ("R5"@, 5u16),
        ("R6"@, 6u16),
        ("R7"@, 7u16),
        ("R8"@, 8u16),
        ("R9"@, 9u16),
        ("R10"@, 10u16),
        ("R11"@, 11u16),
        ("R12"@, 12u16),
        ("R13"@, 13u16),
        ("R14"@, 14u16),
        ("R15"@, 15u16),
        ("SCREEN"@, 16384u16),
        ("KBD"@, 24576u16),
        ("SP"@, 0u16),
        ("LCL"@, 1u16),
        ("ARG"@, 2u16),
        ("THIS"@, 3u16),
        ("THAT"@, 4u16),
    ]
}

/// The map that binds the first `n` names of `entries`, each to its
/// address. Where a name stands twice, the later entry counts.
pub open spec fn bound_prefix(entries: Seq<(Seq<char>, u16)>, n: nat) -> Map<Seq<char>, u16>
    decreases n,
{
    if n == 0 {
        Map::empty()
    } else {
        bound_prefix(entries, (n - 1) as nat).insert(entries[n - 1].0, entries[n - 1].1)
    }
}

/// The bindings of the predefined names.
pub open spec fn predefined_map() -> Map<Seq<char>, u16> {
    bound_prefix(predefined_symbols(), predefined_symbols().len())
}

/// The mathematical content of a `SymbolTable`.
pub struct SymbolTableView {
    pub symbols: Map<Seq<char>, u16>,
    pub next_free_address: u16,
}

impl SymbolTableView {
    /// The table of a program that has declared nothing yet.
    pub open spec fn initial() -> SymbolTableView {
        SymbolTableView { symbols: predefined_map(), next_free_address: 16 }
    }

    /// Whether the table holds `name`.
    pub open spec fn contains(self, name: Seq<char>) -> bool {
        self.symbols.contains_key(name)
    }

    /// The address of `name`.
    pub open spec fn resolve(self, name: Seq<char>) -> Result<u16, AssemblyError> {
        if self.symbols.contains_key(name) {
            Ok(self.symbols[name])
        } else {
            Err(AssemblyError::UnboundSymbol)
        }
    }

    /// The table after `name` was added at `address`. A name that the
    /// table holds keeps its address, and nothing changes. A new variable
    /// moves the next free address up by one, and is refused where that
    /// would leave the 16-bit range.
    pub open spec fn add(self, name: Seq<char>, address: u16, is_variable: bool) -> Result<
        SymbolTableView,
        AssemblyError,
    > {
        if self.symbols.contains_key(name) {
            Ok(self)
        } else if !is_variable {
            Ok(SymbolTableView { symbols: self.symbols.insert(name, address), ..self })
        } else if self.next_free_address == u16::MAX {
            Err(AssemblyError::AddressSpaceExhausted)
        } else {
            Ok(
                SymbolTableView {
                    symbols: self.symbols.insert(name, address),
                    next_free_address: (self.next_free_address + 1) as u16,
                },
            )
        }
    }

    /// The table after the variable `name` was seen: a new name is bound
    /// to the next free address.
    pub open spec fn allocate(self, name: Seq<char>) -> Result<SymbolTableView, AssemblyError> {
        self.add(name, self.next_free_address, true)
    }

    /// The table after the variables `names` were seen one after the other.
    pub open spec fn allocate_all(self, names: Seq<Seq<char>>) -> Result<
        SymbolTableView,
        AssemblyError,
    >
        decreases names.len(),
    {
        if names.len() == 0 {
            Ok(self)
        } else {
            match self.allocate(names.first()) {
                Ok(table) => table.allocate_all(names.drop_first()),
                Err(e) => Err(e),
            }
        }
    }
}

/// The names of `names` that are new when they are seen, in their
/// order: those that are not in `known` and have not come before.
pub open spec fn newly_seen(known: Set<Seq<char>>, names: Seq<Seq<char>>) -> Seq<Seq<char>>
    decreases names.len(),
{
    if names.len() == 0 {
        Seq::empty()
    } else if known.contains(names.first()) {
        newly_seen(known, names.drop_first())
    } else {
        seq![names.first()] + newly_seen(known.insert(names.first()), names.drop_first())
    }
}

/// The predefined names with their addresses.
pub fn get_predefined_symbols() -> (r: Vec<(String, u16)>)
    ensures
        r.deep_view() == predefined_symbols(),
{
    let r = vec![
        (String::from_str("R0"), 0u16),
        (String::from_str("R1"), 1u16),
        (String::from_str("R2"), 2u16),
        (String::from_str("R3"), 3u16),
        (String::from_str("R4"), 4u16),
        (String::from_str("R5"), 5u16),
        (String::from_str("R6"), 6u16),
        (String::from_str("R7"), 7u16),
        (String::from_str("R8"), 8u16),
        (String::from_str("R9"), 9u16),
        (String::from_str("R10"), 10u16),
        (String::from_str("R11"), 11u16),
        (String::from_str("R12"), 12u16),
        (String::from_str("R13"), 13u16),
        (String::from_str("R14"), 14u16),
        (String::from_str("R15"), 15u16),
        (String::from_str("SCREEN"), 16384u16),
        (String::from_str("KBD"), 24576u16),
        (String::from_str("SP"), 0u16),
        (String::from_str("LCL"), 1u16),
        (String::from_str("ARG"), 2u16),
        (String::from_str("THIS"), 3u16),
        (String::from_str("THAT"), 4u16),
    ];
    assert(r.deep_view() =~= predefined_symbols());
    r
}

/// The names of a program with their addresses, and the next address
/// that a new variable will get.
pub struct SymbolTable {
    symbol_table: StringHashMap<u16>,
    next_free_address: u16,
}

impl View for SymbolTable {
    type V = SymbolTableView;

    closed spec fn view(&self) -> SymbolTableView {
        SymbolTableView {
            symbols: self.symbol_table@,
            next_free_address: self.next_free_address,
        }
    }
}

impl SymbolTable {
    /// A table that holds the predefined names, with 16 as the next free
    /// address.
    pub fn new() -> (r: Self)
        ensures
            r@ == SymbolTableView::initial(),
    {
        let mut symbol_table = Self { symbol_table: StringHashMap::new(), next_free_address: 16 };
        symbol_table.init();
        assert(symbol_table@.symbols =~= predefined_map());
        symbol_table
    }

    /// Binds each predefined name to its address, whatever it was bound to.
    pub fn init(&mut self)
        ensures
            final(self)@.symbols == old(self)@.symbols.union_prefer_right(predefined_map()),
            final(self)@.next_free_address == old(self)@.next_free_address,
    {
        let symbols = get_predefined_symbols();
        let ghost entries = predefined_symbols();
        let mut i: usize = 0;
        while i < symbols.len()
            invariant
                i <= symbols.len(),
                symbols.deep_view() == entries,
                entries == predefined_symbols(),
                self.next_free_address == old(self).next_free_address,
                self.symbol_table@ == old(self).symbol_table@.union_prefer_right(
                    bound_prefix(entries, i as nat),
                ),
            decreases symbols.len() - i,
        {
            let name = symbols[i].0.clone();
            let address = symbols[i].1;
            proof {
                assert(symbols.deep_view()[i as int] == (name@, address));
                let before = old(self).symbol_table@;
                assert(before.union_prefer_right(bound_prefix(entries, i as nat)).insert(
                    name@,
                    address,
                ) =~= before.union_prefer_right(bound_prefix(entries, (i + 1) as nat)));
            }
            self.symbol_table.insert(name, address);
            i += 1;
        }
        assert(old(self).symbol_table@.union_prefer_right(Map::empty()) =~= old(
            self,
        ).symbol_table@);
    }

    /// Adds `new_symbol` at `memory_address` unless the table holds it
    /// already; then nothing changes. A new variable takes the next free
    /// address out of use.
    pub fn add_symbol(&mut self, new_symbol: &str, memory_address: u16, is_variable: bool) -> (r:
        Result<(), AssemblyError>)
        ensures
            match old(self)@.add(new_symbol@, memory_address, is_variable) {
                Ok(table) => r is Ok && final(self)@ == table,
                Err(e) => r == Err::<(), AssemblyError>(e) && final(self)@ == old(self)@,
            },
    {
        if !self.contains_symbol(new_symbol) {
            if is_variable {
                match self.increment_next_free_address() {
                    Ok(()) => {},
                    Err(e) => {
                        return Err(e);
                    },
                }
            }
            self.symbol_table.insert(String::from_str(new_symbol), memory_address);
        }
        Ok(())
    }

    /// Tells whether the table holds `symbol`.
    pub fn contains_symbol(&self, symbol: &str) -> (r: bool)
        ensures
            r == self@.contains(symbol@),
    {
        self.symbol_table.contains_key(symbol)
    }

    /// The address of `symbol`.
    pub fn get_memory_address(&self, symbol: &str) -> (r: Result<u16, AssemblyError>)
        ensures
            r == self@.resolve(symbol@),
    {
        match self.symbol_table.get(symbol) {
            Some(value) => Ok(*value),
            None => Err(AssemblyError::UnboundSymbol),
        }
    }

    /// The address that the next new variable will get.
    pub fn get_next_free_address(&self) -> (r: u16)
        ensures
            r == self@.next_free_address,
    {
        self.next_free_address
    }

    /// Moves the next free address up by one, unless it is the last of
    /// the 16-bit range.
    fn increment_next_free_address(&mut self) -> (r: Result<(), AssemblyError>)
        ensures
            final(self)@.symbols == old(self)@.symbols,
            old(self)@.next_free_address < u16::MAX ==> r is Ok && final(self)@.next_free_address
                == old(self)@.next_free_address + 1,
            old(self)@.next_free_address == u16::MAX ==> r == Err::<(), AssemblyError>(
                AssemblyError::AddressSpaceExhausted,
            ) && final(self)@ == old(self)@,
    {
        if self.next_free_address == u16::MAX {
            Err(AssemblyError::AddressSpaceExhausted)
        } else {
            self.next_free_address += 1;
            Ok(())
        }
    }
}

/// Among entries with different names, each name is bound to the
/// address of its entry, and no other name is bound.
pub proof fn lemma_bound_prefix(entries: Seq<(Seq<char>, u16)>, n: nat)
    requires
        n <= entries.len(),
        forall|i: int, j: int| 0 <= i < j < n ==> entries[i].0 != entries[j].0,
    ensures
        forall|i: int|
            0 <= i < n ==> bound_prefix(entries, n).contains_key(#[trigger] entries[i].0)
                && bound_prefix(entries, n)[entries[i].0] == entries[i].1,
        forall|name: Seq<char>| #[trigger]
            bound_prefix(entries, n).contains_key(name) ==> exists|i: int|
                0 <= i < n && #[trigger] entries[i].0 == name,
    decreases n,
{
    if n > 0 {
        lemma_bound_prefix(entries, (n - 1) as nat);
        let before = bound_prefix(entries, (n - 1) as nat);
        assert forall|name: Seq<char>| #[trigger]
            bound_prefix(entries, n).contains_key(name) implies exists|i: int|
            0 <= i < n && #[trigger] entries[i].0 == name by {
            if name == entries[n - 1].0 {
            } else {
                assert(before.contains_key(name));
                let i = choose|i: int| 0 <= i < n - 1 && #[trigger] entries[i].0 == name;
                assert(0 <= i < n && entries[i].0 == name);
            }
        }
    }
}

/// No name stands twice among the predefined symbols.
proof fn lemma_predefined_names_differ()
    ensures
        forall|i: int, j: int|
            0 <= i < j < predefined_symbols().len() ==> predefined_symbols()[i].0
                != predefined_symbols()[j].0,
{
    reveal_strlit("R0");
    reveal_strlit("R1");
    reveal_strlit("R2");
    reveal_strlit("R3");
    reveal_strlit("R4");
    reveal_strlit("R5");
    reveal_strlit("R6");
    reveal_strlit("R7");
    reveal_strlit("R8");
    reveal_strlit("R9");
    reveal_strlit("R10");
    reveal_strlit("R11");
    reveal_strlit("R12");
    reveal_strlit("R13");
    reveal_strlit("R14");
    reveal_strlit("R15");
    reveal_strlit("SCREEN");
    reveal_strlit("KBD");
    reveal_strlit("SP");
    reveal_strlit("LCL");
    reveal_strlit("ARG");
    reveal_strlit("THIS");
    reveal_strlit("THAT");
    let entries = predefined_symbols();
    assert forall|i: int, j: int| 0 <= i < j < entries.len() implies entries[i].0
        != entries[j].0 by {
        // Two of the names differ in their length or in one of their first
        // three characters.
        let a = entries[i].0;
        let b = entries[j].0;
        assert(a.len() != b.len() || a[0] != b[0] || a[1] != b[1] || a[2] != b[2]);
    }
}

/// A new table resolves each predefined name to its address, and holds
/// no other name.
pub proof fn lemma_initial_table()
    ensures
        SymbolTableView::initial().next_free_address == 16,
        forall|i: int|
            0 <= i < predefined_symbols().len() ==> SymbolTableView::initial().resolve(
                #[trigger] predefined_symbols()[i].0,
            ) == Ok::<u16, AssemblyError>(predefined_symbols()[i].1),
        forall|name: Seq<char>| #[trigger]
            SymbolTableView::initial().contains(name) ==> exists|i: int|
                0 <= i < predefined_symbols().len() && #[trigger] predefined_symbols()[i].0
                    == name,
{
    lemma_predefined_names_differ();
    lemma_bound_prefix(predefined_symbols(), predefined_symbols().len());
}

/// Adding a name a second time changes nothing, whatever the address:
/// the name keeps the address that it had after the first time.
pub proof fn lemma_add_twice(
    table: SymbolTableView,
    name: Seq<char>,
    first: u16,
    first_is_variable: bool,
    second: u16,
    second_is_variable: bool,
)
    requires
        table.add(name, first, first_is_variable) is Ok,
    ensures
        ({
            let once = table.add(name, first, first_is_variable)->Ok_0;
            &&& once.add(name, second, second_is_variable) == Ok::<SymbolTableView, AssemblyError>(
                once,
            )
            &&& once.resolve(name) == if table.contains(name) {
                table.resolve(name)
            } else {
                Ok::<u16, AssemblyError>(first)
            }
        }),
{
}

/// Adding a name leaves every other name as it was.
pub proof fn lemma_add_keeps_others(
    table: SymbolTableView,
    name: Seq<char>,
    address: u16,
    is_variable: bool,
    other: Seq<char>,
)
    requires
        table.add(name, address, is_variable) is Ok,
        other != name,
    ensures
        table.add(name, address, is_variable)->Ok_0.resolve(other) == table.resolve(other),
{
}

/// Variables get the free addresses one after the other, without a gap:
/// of the names that are new when they are seen, the first gets the next
/// free address, the second the one after it, and so on. The names that
/// the table held keep their addresses.
pub proof fn lemma_allocation_is_gapless(table: SymbolTableView, names: Seq<Seq<char>>)
    requires
        table.allocate_all(names) is Ok,
    ensures
        ({
            let after = table.allocate_all(names)->Ok_0;
            let fresh = newly_seen(table.symbols.dom(), names);
            &&& after.next_free_address == table.next_free_address + fresh.len()
            &&& forall|k: int|
                0 <= k < fresh.len() ==> after.resolve(#[trigger] fresh[k]) == Ok::<
                    u16,
                    AssemblyError,
                >((table.next_free_address + k) as u16)
            &&& forall|name: Seq<char>| #[trigger]
                table.contains(name) ==> after.resolve(name) == table.resolve(name)
        }),
    decreases names.len(),
{
    if names.len() > 0 {
        let name = names.first();
        let rest = names.drop_first();
        let next = table.allocate(name)->Ok_0;
        let after = next.allocate_all(rest)->Ok_0;
        let fresh = newly_seen(table.symbols.dom(), names);
        lemma_allocation_is_gapless(next, rest);
        assert forall|other: Seq<char>| #[trigger] table.contains(other) implies after.resolve(
            other,
        ) == table.resolve(other) by {
            assert(next.contains(other));
        }
        if table.contains(name) {
            assert(next == table);
        } else {
            let later = newly_seen(next.symbols.dom(), rest);
            assert(next.symbols.dom() =~= table.symbols.dom().insert(name));
            assert(fresh == seq![name] + later);
            assert(next.contains(name));
            assert forall|k: int| 0 <= k < fresh.len() implies after.resolve(#[trigger] fresh[k])
                == Ok::<u16, AssemblyError>((table.next_free_address + k) as u16) by {
                if k > 0 {
                    assert(fresh[k] == later[k - 1]);
                }
            }
        }
    }
}

} // verus!
