use bindep::elf::{
    has_path_separator, is_import, ElfAnalyzer, ElfBinary, ElfSym, STB_GLOBAL, STB_WEAK,
};

fn sym(name: &str, value: u64, bind: u8, undefined: bool) -> ElfSym {
    ElfSym { name: name.to_owned(), value, bind, undefined }
}

fn bin_with(
    libraries: Vec<String>,
    dynsyms: Vec<ElfSym>,
    rpath: Option<String>,
    runpath: Option<String>,
) -> ElfBinary {
    ElfBinary { is_64: true, libraries, dynsyms, rpath, runpath }
}

fn strings(v: &[&str]) -> Vec<String> {
    v.iter().map(|s| (*s).to_owned()).collect()
}

#[test]
fn description_names_bit_width() {
    let a = ElfAnalyzer::from_bin(bin_with(vec![], vec![], None, None));
    assert_eq!(a.description(), "ELF64");
    let mut b = bin_with(vec![], vec![], None, None);
    b.is_64 = false;
    assert_eq!(ElfAnalyzer::from_bin(b).description(), "ELF32");
}

#[test]
fn import_filter() {
    assert!(is_import(&sym("a", 0, STB_GLOBAL, true)));
    assert!(is_import(&sym("b", 0, STB_WEAK, true)));
    assert!(!is_import(&sym("c", 0, 0, true)));
    assert!(!is_import(&sym("d", 0x100, STB_GLOBAL, false)));
}

#[test]
fn imports_and_exports_split() {
    let a = ElfAnalyzer::from_bin(bin_with(
        strings(&["libc.so.6"]),
        vec![
            sym("printf", 0, STB_GLOBAL, true),
            sym("my_fn", 0x1000, STB_GLOBAL, false),
            sym("weak_ref", 0, STB_WEAK, true),
            sym("local_thing", 0x2000, 0, false),
            sym("printf", 0, STB_GLOBAL, true),
        ],
        None,
        None,
    ));
    let mut imports = a.imports();
    imports.sort();
    assert_eq!(imports, strings(&["printf", "weak_ref"]));
    let exports = a.exports();
    assert_eq!(exports, strings(&["my_fn"]));
}

#[test]
fn deps_deduplicated() {
    let a = ElfAnalyzer::from_bin(bin_with(
        strings(&["libc.so.6", "libm.so.6", "libc.so.6"]),
        vec![],
        None,
        None,
    ));
    let mut deps = a.deps();
    deps.sort();
    assert_eq!(deps, strings(&["libc.so.6", "libm.so.6"]));
}

#[test]
fn attribution_resolves_import_to_exporting_dependency() {
    let a = ElfAnalyzer::from_bin(bin_with(
        strings(&["libc.so.6"]),
        vec![sym("printf", 0, STB_GLOBAL, true)],
        None,
        None,
    ));
    let dep_exports = vec![Some(strings(&["printf", "fopen"]))];
    let buckets = a.imp_deps(&dep_exports);
    assert_eq!(buckets.len(), 1);
    assert_eq!(buckets[0].name, "libc.so.6");
    assert_eq!(buckets[0].syms, strings(&["printf"]));
}

#[test]
fn attribution_sends_unresolved_to_sentinel() {
    let a = ElfAnalyzer::from_bin(bin_with(
        strings(&["libfoo.so", "libbar.so"]),
        vec![sym("frobnicate", 0, STB_GLOBAL, true)],
        None,
        None,
    ));
    let dep_exports = vec![None, None];
    let buckets = a.imp_deps(&dep_exports);
    assert_eq!(buckets.len(), 1);
    assert_eq!(buckets[0].name, "<Unknown dependency>");
    assert_eq!(buckets[0].syms, strings(&["frobnicate"]));
}

#[test]
fn attribution_tie_break_is_declared_order() {
    let mk = |order: &[&str]| {
        let a = ElfAnalyzer::from_bin(bin_with(
            strings(order),
            vec![sym("X", 0, STB_GLOBAL, true)],
            None,
            None,
        ));
        let dep_exports = vec![Some(strings(&["X"])), Some(strings(&["X"]))];
        a.imp_deps(&dep_exports)
    };
    for _ in 0..3 {
        let buckets = mk(&["liba.so", "libb.so"]);
        assert_eq!(buckets.len(), 2);
        assert_eq!(buckets[0].name, "liba.so");
        assert_eq!(buckets[0].syms, strings(&["X"]));
        assert_eq!(buckets[1].name, "libb.so");
        assert!(buckets[1].syms.is_empty());
    }
    let swapped = mk(&["libb.so", "liba.so"]);
    assert_eq!(swapped[0].name, "libb.so");
    assert_eq!(swapped[0].syms, strings(&["X"]));
}

#[test]
fn attribution_conserves_imports() {
    let a = ElfAnalyzer::from_bin(bin_with(
        strings(&["liba.so", "libb.so", "libc.so"]),
        vec![
            sym("one", 0, STB_GLOBAL, true),
            sym("two", 0, STB_WEAK, true),
            sym("three", 0, STB_GLOBAL, true),
            sym("owned", 0x10, STB_GLOBAL, false),
        ],
        None,
        None,
    ));
    let dep_exports = vec![
        Some(strings(&["one", "unrelated"])),
        None,
        Some(strings(&["two", "one"])),
    ];
    let buckets = a.imp_deps(&dep_exports);
    let mut all: Vec<String> = Vec::new();
    for b in &buckets {
        for s in &b.syms {
            assert!(!all.contains(s), "symbol {s} in two buckets");
            all.push(s.clone());
        }
    }
    all.sort();
    let mut imports = a.imports();
    imports.sort();
    assert_eq!(all, imports);
    assert_eq!(buckets.len(), 3);
    assert_eq!(buckets[0].name, "liba.so");
    assert_eq!(buckets[0].syms, strings(&["one"]));
    assert_eq!(buckets[1].name, "libc.so");
    assert_eq!(buckets[1].syms, strings(&["two"]));
    assert_eq!(buckets[2].name, "<Unknown dependency>");
    assert_eq!(buckets[2].syms, strings(&["three"]));
}

#[test]
fn duplicate_dependency_names_share_one_bucket() {
    let a = ElfAnalyzer::from_bin(bin_with(
        strings(&["liba.so", "liba.so"]),
        vec![sym("one", 0, STB_GLOBAL, true), sym("two", 0, STB_GLOBAL, true)],
        None,
        None,
    ));
    let dep_exports = vec![Some(strings(&["one"])), Some(strings(&["two"]))];
    let buckets = a.imp_deps(&dep_exports);
    assert_eq!(buckets.len(), 1);
    assert_eq!(buckets[0].name, "liba.so");
    let mut syms = buckets[0].syms.clone();
    syms.sort();
    assert_eq!(syms, strings(&["one", "two"]));
}

#[test]
fn empty_image_attributes_nothing() {
    let a = ElfAnalyzer::from_bin(bin_with(vec![], vec![], None, None));
    assert!(a.imports().is_empty());
    assert!(a.exports().is_empty());
    assert!(a.deps().is_empty());
    let buckets = a.imp_deps(&vec![]);
    assert!(buckets.is_empty());
}

#[test]
fn resolved_dependency_with_no_match_keeps_an_empty_bucket() {
    let a = ElfAnalyzer::from_bin(bin_with(
        strings(&["liba.so"]),
        vec![sym("wanted", 0, STB_GLOBAL, true)],
        None,
        None,
    ));
    let dep_exports = vec![Some(strings(&["unrelated"]))];
    let buckets = a.imp_deps(&dep_exports);
    assert_eq!(buckets.len(), 2);
    assert_eq!(buckets[0].name, "liba.so");
    assert!(buckets[0].syms.is_empty());
    assert_eq!(buckets[1].name, "<Unknown dependency>");
    assert_eq!(buckets[1].syms, strings(&["wanted"]));
}

#[test]
fn search_order_follows_the_declared_lists() {
    let a = ElfAnalyzer::from_bin(bin_with(
        vec![],
        vec![],
        Some("/r1:/r2".to_owned()),
        Some("/rp".to_owned()),
    ));
    let env = Some("/e1:/e2".to_owned());
    let dirs = a.search_dirs(&env);
    assert_eq!(dirs, strings(&["/r1", "/r2", "/e1", "/e2", "/rp", "/lib", "/usr/lib"]));
}

#[test]
fn search_order_without_lists_is_system_only() {
    let a = ElfAnalyzer::from_bin(bin_with(vec![], vec![], None, None));
    let dirs = a.search_dirs(&None);
    assert_eq!(dirs, strings(&["/lib", "/usr/lib"]));
}

#[test]
fn path_separator_detection() {
    assert!(has_path_separator("/usr/lib/libc.so.6"));
    assert!(has_path_separator("./libc.so.6"));
    assert!(!has_path_separator("libc.so.6"));
}
