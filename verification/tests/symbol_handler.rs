use hack_assembler::error::AssemblyError;
use hack_assembler::symbol_handler::{get_predefined_symbols, SymbolTable};

fn init_symbol_table() -> SymbolTable {
    SymbolTable::new()
}

#[test]
fn test_init() {
    let symbol_table = init_symbol_table();
    assert_eq!(symbol_table.contains_symbol("R0"), true);
    assert_eq!(symbol_table.contains_symbol("R1"), true);
    assert_eq!(symbol_table.contains_symbol("SCREEN"), true);
}

#[test]
fn test_add_symbol() {
    let mut symbol_table = init_symbol_table();
    assert_eq!(symbol_table.contains_symbol("n"), false);
    symbol_table.add_symbol("n", 16, true).unwrap();
    assert_eq!(symbol_table.contains_symbol("n"), true);
    assert_eq!(symbol_table.get_memory_address("n").unwrap(), 16);
}

#[test]
fn predefined_symbols_are_the_documented_ones() {
    let mut expected: Vec<(String, u16)> = Vec::new();
    for i in 0..16u16 {
        expected.push((format!("R{}", i), i));
    }
    expected.push(("SCREEN".to_string(), 16384));
    expected.push(("KBD".to_string(), 24576));
    expected.push(("SP".to_string(), 0));
    expected.push(("LCL".to_string(), 1));
    expected.push(("ARG".to_string(), 2));
    expected.push(("THIS".to_string(), 3));
    expected.push(("THAT".to_string(), 4));
    assert_eq!(get_predefined_symbols(), expected);
}

#[test]
fn new_table_resolves_every_predefined_symbol() {
    let table = SymbolTable::new();
    for (name, address) in get_predefined_symbols() {
        assert!(table.contains_symbol(&name));
        assert_eq!(table.get_memory_address(&name), Ok(address));
    }
    assert_eq!(table.get_memory_address("R15"), Ok(15));
    assert_eq!(table.get_memory_address("SCREEN"), Ok(16384));
    assert_eq!(table.get_memory_address("KBD"), Ok(24576));
    assert_eq!(table.get_memory_address("SP"), Ok(0));
    assert_eq!(table.get_memory_address("LCL"), Ok(1));
    assert_eq!(table.get_memory_address("ARG"), Ok(2));
    assert_eq!(table.get_memory_address("THIS"), Ok(3));
    assert_eq!(table.get_memory_address("THAT"), Ok(4));
    assert_eq!(table.get_next_free_address(), 16);
}

#[test]
fn new_table_holds_nothing_else() {
    let table = SymbolTable::new();
    for name in ["", "R16", "r0", "R", "screen", "i", "LOOP", "R00"] {
        assert!(!table.contains_symbol(name));
        assert_eq!(table.get_memory_address(name), Err(AssemblyError::UnboundSymbol));
    }
}

#[test]
fn add_keeps_the_first_address() {
    let mut table = SymbolTable::new();
    table.add_symbol("LOOP", 4, false).unwrap();
    table.add_symbol("LOOP", 9, false).unwrap();
    assert_eq!(table.get_memory_address("LOOP"), Ok(4));
    table.add_symbol("LOOP", 16, true).unwrap();
    assert_eq!(table.get_memory_address("LOOP"), Ok(4));
    assert_eq!(table.get_next_free_address(), 16);
    table.add_symbol("R3", 100, true).unwrap();
    assert_eq!(table.get_memory_address("R3"), Ok(3));
    assert_eq!(table.get_next_free_address(), 16);
}

#[test]
fn label_takes_no_address_out_of_use() {
    let mut table = SymbolTable::new();
    table.add_symbol("END", 7, false).unwrap();
    assert_eq!(table.get_next_free_address(), 16);
    assert_eq!(table.get_memory_address("END"), Ok(7));
}

#[test]
fn variables_get_the_addresses_from_16_on() {
    let mut table = SymbolTable::new();
    let names = ["i", "sum", "i", "R5", "n", "sum", "last"];
    for name in names {
        let next = table.get_next_free_address();
        table.add_symbol(name, next, true).unwrap();
    }
    assert_eq!(table.get_memory_address("i"), Ok(16));
    assert_eq!(table.get_memory_address("sum"), Ok(17));
    assert_eq!(table.get_memory_address("n"), Ok(18));
    assert_eq!(table.get_memory_address("last"), Ok(19));
    assert_eq!(table.get_memory_address("R5"), Ok(5));
    assert_eq!(table.get_next_free_address(), 20);
}

#[test]
fn init_binds_the_predefined_symbols_again() {
    let mut table = SymbolTable::new();
    table.add_symbol("x", 16, true).unwrap();
    table.init();
    assert_eq!(table.get_memory_address("x"), Ok(16));
    assert_eq!(table.get_memory_address("KBD"), Ok(24576));
    assert_eq!(table.get_next_free_address(), 17);
}

#[test]
fn allocation_stops_at_the_end_of_the_address_range() {
    let mut table = SymbolTable::new();
    let mut k: u32 = 16;
    while k < 65535 {
        let next = table.get_next_free_address();
        assert_eq!(u32::from(next), k);
        assert_eq!(table.add_symbol(&format!("v{}", k), next, true), Ok(()));
        k += 1;
    }
    assert_eq!(table.get_next_free_address(), 65535);
    assert_eq!(table.get_memory_address("v65534"), Ok(65534));
    let refused = table.add_symbol("one_more", 65535, true);
    assert_eq!(refused, Err(AssemblyError::AddressSpaceExhausted));
    assert!(!table.contains_symbol("one_more"));
    assert_eq!(table.get_next_free_address(), 65535);
    assert_eq!(table.add_symbol("v16", 65535, true), Ok(()));
    assert_eq!(table.add_symbol("LABEL", 3, false), Ok(()));
    assert_eq!(table.get_memory_address("LABEL"), Ok(3));
}
