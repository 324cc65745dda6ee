use hieroglyphic::{Symbol, SymbolTable};

#[test]
fn test_from_id() {
    let symbol = Symbol::from_id("bGF0ZXgyZS1PVDEtX3RleHRhc2NpaWNpcmN1bQ==");

    assert_eq!(
        symbol,
        Some(Symbol::new("\\textasciicircum", "latex2e", "OT1", true, false))
    );
}

#[test]
fn test_iterate_symbols() {
    let table = SymbolTable::reference();
    assert_eq!(table.len(), 1098);
}

#[test]
fn test_id_get_id() {
    let table = SymbolTable::reference();
    for symbol in table.symbols() {
        assert_eq!(Symbol::from_id(&symbol.id()), Some(symbol.clone()));
    }
}

#[test]
fn reference_table_finds_each_symbol_by_its_id() {
    let table = SymbolTable::reference();
    for symbol in table.symbols() {
        assert_eq!(table.lookup(&symbol.id()), Some(symbol));
    }
}

#[test]
fn id_encodes_package_encoding_and_escaped_command() {
    let s = Symbol::new("\\textasciicircum", "latex2e", "OT1", true, false);
    assert_eq!(s.id(), "bGF0ZXgyZS1PVDEtX3RleHRhc2NpaWNpcmN1bQ==");
}

#[test]
fn id_pads_to_whole_groups() {
    assert_eq!(Symbol::new("a", "b", "c", true, false).id(), "Yi1jLWE=");
    assert_eq!(Symbol::new("ab", "b", "c", true, false).id(), "Yi1jLWFi");
    assert_eq!(Symbol::new("abc", "b", "c", true, false).id(), "Yi1jLWFiYw==");
}

#[test]
fn id_ignores_modes() {
    let a = Symbol::new("\\alpha", "latex2e", "OT1", false, true);
    let b = Symbol::new("\\alpha", "latex2e", "OT1", true, true);
    assert_eq!(a.id(), b.id());
    assert_eq!(a.id(), "bGF0ZXgyZS1PVDEtX2FscGhh");
}

#[test]
fn from_id_unknown_is_none() {
    assert_eq!(Symbol::from_id("not-an-id"), None);
    assert_eq!(Symbol::from_id(""), None);
}

#[test]
fn lookup_in_own_table() {
    let table = SymbolTable::from_symbols(vec![
        Symbol::new("\\alpha", "latex2e", "OT1", false, true),
        Symbol::new("\\beta", "latex2e", "OT1", false, true),
    ])
    .unwrap();
    assert_eq!(table.len(), 2);
    let beta = table.lookup("bGF0ZXgyZS1PVDEtX2JldGE=").unwrap();
    assert_eq!(beta.command, "\\beta");
    assert_eq!(table.position_of("bGF0ZXgyZS1PVDEtX2JldGE="), Some(1));
    assert_eq!(table.lookup("bGF0ZXgyZS1PVDEtX2dhbW1h"), None);
    assert_eq!(table.id_at(0), "bGF0ZXgyZS1PVDEtX2FscGhh");
}

#[test]
fn duplicate_identifiers_are_refused() {
    let table = SymbolTable::from_symbols(vec![
        Symbol::new("\\alpha", "latex2e", "OT1", false, true),
        Symbol::new("\\beta", "latex2e", "OT1", false, true),
        Symbol::new("\\alpha", "latex2e", "OT1", true, false),
    ]);
    assert!(table.is_none());
}

#[test]
fn empty_table_finds_nothing() {
    let table = SymbolTable::from_symbols(Vec::new()).unwrap();
    assert_eq!(table.len(), 0);
    assert_eq!(table.lookup("bGF0ZXgyZS1PVDEtX2FscGhh"), None);
}

#[test]
fn mode_labels() {
    assert_eq!(Symbol::new("\\a", "p", "OT1", true, true).mode_label(), "mathmode & textmode");
    assert_eq!(Symbol::new("\\a", "p", "OT1", true, false).mode_label(), "textmode");
    assert_eq!(Symbol::new("\\a", "p", "OT1", false, true).mode_label(), "mathmode");
    assert_eq!(Symbol::new("\\a", "p", "OT1", false, false).mode_label(), "");
}

#[test]
fn duplicate_copies_every_field() {
    let s = Symbol::new("\\alpha", "latex2e", "T1", false, true);
    let d = s.duplicate();
    assert_eq!(d, s);
    assert_eq!(d.font_encoding, "T1");
}
