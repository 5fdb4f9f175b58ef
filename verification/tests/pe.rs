use bindep::pe::{PEAnalyzer, PeBinary, PeExport, PeImport, PeReexport};

fn imp(dll: &str, name: &str) -> PeImport {
    PeImport { dll: dll.to_owned(), name: name.to_owned() }
}

fn strings(v: &[&str]) -> Vec<String> {
    v.iter().map(|s| (*s).to_owned()).collect()
}

fn bin_with(imports: Vec<PeImport>, exports: Vec<PeExport>) -> PeBinary {
    PeBinary { is_64: true, imports, exports }
}

#[test]
fn description_names_flavor() {
    let a = PEAnalyzer::from_bin(bin_with(vec![], vec![]));
    assert_eq!(a.description(), "PE32+");
    let mut b = bin_with(vec![], vec![]);
    b.is_64 = false;
    assert_eq!(PEAnalyzer::from_bin(b).description(), "PE32");
}

#[test]
fn dll_names_fold_case_into_one_entry() {
    let a = PEAnalyzer::from_bin(bin_with(
        vec![imp("KERNEL32.DLL", "CreateFileW"), imp("kernel32.dll", "ReadFile")],
        vec![],
    ));
    assert_eq!(a.deps(), strings(&["kernel32.dll"]));
}

#[test]
fn imports_are_the_symbol_names() {
    let a = PEAnalyzer::from_bin(bin_with(
        vec![
            imp("KERNEL32.DLL", "CreateFileW"),
            imp("user32.dll", "MessageBoxW"),
            imp("kernel32.dll", "CreateFileW"),
        ],
        vec![],
    ));
    let mut imports = a.imports();
    imports.sort();
    assert_eq!(imports, strings(&["CreateFileW", "MessageBoxW"]));
}

#[test]
fn attribution_groups_by_folded_dll() {
    let a = PEAnalyzer::from_bin(bin_with(
        vec![
            imp("KERNEL32.DLL", "CreateFileW"),
            imp("user32.dll", "MessageBoxW"),
            imp("kernel32.dll", "ReadFile"),
            imp("kernel32.dll", "CreateFileW"),
        ],
        vec![],
    ));
    let buckets = a.imp_deps();
    assert_eq!(buckets.len(), 2);
    assert_eq!(buckets[0].name, "kernel32.dll");
    let mut k32 = buckets[0].syms.clone();
    k32.sort();
    assert_eq!(k32, strings(&["CreateFileW", "ReadFile"]));
    assert_eq!(buckets[1].name, "user32.dll");
    assert_eq!(buckets[1].syms, strings(&["MessageBoxW"]));
    let mut all: Vec<String> = Vec::new();
    for b in &buckets {
        for s in &b.syms {
            all.push(s.clone());
        }
    }
    all.sort();
    all.dedup();
    let mut imports = a.imports();
    imports.sort();
    assert_eq!(all, imports);
}

#[test]
fn named_export_listed_by_name() {
    let a = PEAnalyzer::from_bin(bin_with(
        vec![],
        vec![PeExport { name: Some("Frob".to_owned()), offset: Some(0x10), reexport: None }],
    ));
    assert_eq!(a.exports(), strings(&["Frob"]));
}

#[test]
fn nameless_export_listed_by_offset_label() {
    let a = PEAnalyzer::from_bin(bin_with(
        vec![],
        vec![PeExport { name: None, offset: Some(0x1000), reexport: None }],
    ));
    assert_eq!(a.exports(), strings(&["#4096"]));
}

#[test]
fn nameless_export_without_offset_is_label_zero() {
    let a = PEAnalyzer::from_bin(bin_with(
        vec![],
        vec![PeExport { name: None, offset: None, reexport: None }],
    ));
    assert_eq!(a.exports(), strings(&["#0"]));
}

#[test]
fn offset_label_handles_the_largest_offset() {
    let a = PEAnalyzer::from_bin(bin_with(
        vec![],
        vec![PeExport { name: None, offset: Some(u64::MAX), reexport: None }],
    ));
    assert_eq!(a.exports(), strings(&["#18446744073709551615"]));
}

#[test]
fn reexport_by_name_folds_the_target_dll() {
    let a = PEAnalyzer::from_bin(bin_with(
        vec![],
        vec![PeExport {
            name: Some("Alias".to_owned()),
            offset: Some(1),
            reexport: Some(PeReexport::ByName {
                lib: "OTHER.DLL".to_owned(),
                export_name: "Target".to_owned(),
            }),
        }],
    ));
    assert_eq!(a.exports(), strings(&["Alias -> other.dll!Target"]));
}

#[test]
fn reexport_by_ordinal_uses_a_numeric_label() {
    let a = PEAnalyzer::from_bin(bin_with(
        vec![],
        vec![PeExport {
            name: None,
            offset: Some(0x1000),
            reexport: Some(PeReexport::ByOrdinal { lib: "Other.Dll".to_owned(), ordinal: 7 }),
        }],
    ));
    assert_eq!(a.exports(), strings(&["#4096 -> other.dll!#7"]));
}
