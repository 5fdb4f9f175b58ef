use bindep::mach::{MachAnalyzer, MachImport, MachOAnalyzer, MachOBinary};

fn strings(v: &[&str]) -> Vec<String> {
    v.iter().map(|s| (*s).to_owned()).collect()
}

fn slice_with(
    cputype: u32,
    libs: &[&str],
    imports: &[(&str, &str)],
    exports: &[&str],
) -> MachOBinary {
    MachOBinary {
        cputype,
        libs: strings(libs),
        imports: imports
            .iter()
            .map(|(dylib, name)| MachImport { name: (*name).to_owned(), dylib: (*dylib).to_owned() })
            .collect(),
        exports: strings(exports),
    }
}

#[test]
fn slice_description_names_cpu_type() {
    let a = MachOAnalyzer::from_bin(slice_with(7, &[], &[], &[]));
    assert_eq!(a.description(), "Mach-O 7");
    let b = MachOAnalyzer::from_bin(slice_with(16777228, &[], &[], &[]));
    assert_eq!(b.description(), "Mach-O 16777228");
}

#[test]
fn slice_sets_deduplicate() {
    let a = MachOAnalyzer::from_bin(slice_with(
        7,
        &["/usr/lib/libSystem.B.dylib", "/usr/lib/libSystem.B.dylib"],
        &[("/usr/lib/libSystem.B.dylib", "_printf"), ("/usr/lib/libSystem.B.dylib", "_printf")],
        &["_main", "_main"],
    ));
    assert_eq!(a.deps(), strings(&["/usr/lib/libSystem.B.dylib"]));
    assert_eq!(a.imports(), strings(&["_printf"]));
    assert_eq!(a.exports(), strings(&["_main"]));
}

#[test]
fn slice_attribution_groups_by_dylib() {
    let a = MachOAnalyzer::from_bin(slice_with(
        7,
        &["/usr/lib/libSystem.B.dylib", "/usr/lib/libfoo.dylib"],
        &[
            ("/usr/lib/libSystem.B.dylib", "_printf"),
            ("/usr/lib/libfoo.dylib", "_frob"),
            ("/usr/lib/libSystem.B.dylib", "_malloc"),
        ],
        &[],
    ));
    let buckets = a.imp_deps();
    assert_eq!(buckets.len(), 2);
    assert_eq!(buckets[0].name, "/usr/lib/libSystem.B.dylib");
    let mut sys = buckets[0].syms.clone();
    sys.sort();
    assert_eq!(sys, strings(&["_malloc", "_printf"]));
    assert_eq!(buckets[1].name, "/usr/lib/libfoo.dylib");
    assert_eq!(buckets[1].syms, strings(&["_frob"]));
}

#[test]
fn fat_description_joins_slices() {
    let single = MachAnalyzer::from_bin(vec![slice_with(7, &[], &[], &[])]);
    assert_eq!(single.description(), "Mach-O 7");
    let fat = MachAnalyzer::from_bin(vec![
        slice_with(7, &[], &[], &[]),
        slice_with(16777228, &[], &[], &[]),
    ]);
    assert_eq!(fat.description(), "Fat: Mach-O 7; Mach-O 16777228");
}

#[test]
fn fat_sets_are_unions() {
    let fat = MachAnalyzer::from_bin(vec![
        slice_with(7, &["/a.dylib", "/b.dylib"], &[("/a.dylib", "_one")], &["_x"]),
        slice_with(12, &["/b.dylib", "/c.dylib"], &[("/c.dylib", "_two")], &["_x", "_y"]),
    ]);
    let mut deps = fat.deps();
    deps.sort();
    assert_eq!(deps, strings(&["/a.dylib", "/b.dylib", "/c.dylib"]));
    let mut imports = fat.imports();
    imports.sort();
    assert_eq!(imports, strings(&["_one", "_two"]));
    let mut exports = fat.exports();
    exports.sort();
    assert_eq!(exports, strings(&["_x", "_y"]));
}

#[test]
fn fat_attribution_merges_buckets_key_wise() {
    let fat = MachAnalyzer::from_bin(vec![
        slice_with(7, &["/a.dylib"], &[("/a.dylib", "_one")], &[]),
        slice_with(12, &["/a.dylib"], &[("/a.dylib", "_two"), ("/b.dylib", "_three")], &[]),
    ]);
    let buckets = fat.imp_deps();
    assert_eq!(buckets.len(), 2);
    assert_eq!(buckets[0].name, "/a.dylib");
    let mut a = buckets[0].syms.clone();
    a.sort();
    assert_eq!(a, strings(&["_one", "_two"]));
    assert_eq!(buckets[1].name, "/b.dylib");
    assert_eq!(buckets[1].syms, strings(&["_three"]));
}

#[test]
fn empty_container_has_empty_views() {
    let fat = MachAnalyzer::from_bin(vec![]);
    assert_eq!(fat.description(), "");
    assert!(fat.deps().is_empty());
    assert!(fat.imports().is_empty());
    assert!(fat.exports().is_empty());
    assert!(fat.imp_deps().is_empty());
}
