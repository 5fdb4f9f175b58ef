use bindep::demangle::demangle;

#[test]
fn cpp_symbol_demangles() {
    assert_eq!(demangle("_ZN3foo3barEv", true), "foo::bar()");
}

#[test]
fn passthrough_when_disabled() {
    assert_eq!(demangle("_ZN3foo3barEv", false), "_ZN3foo3barEv");
    assert_eq!(demangle("__wrap_foo", false), "__wrap_foo");
}

#[test]
fn unknown_name_unchanged() {
    assert_eq!(demangle("just_a_name", true), "just_a_name");
    assert_eq!(demangle("", true), "");
}

#[test]
fn wrap_prefix_stripped() {
    let r = demangle("__wrap_foo", true);
    assert_eq!(r, "[__wrap_] foo");
    assert!(r.starts_with("[__wrap_] "));
    assert!(r.ends_with(&demangle("foo", true)));
}

#[test]
fn wrap_prefix_recurses_into_mangled_remainder() {
    assert_eq!(demangle("__wrap__ZN3foo3barEv", true), "[__wrap_] foo::bar()");
}

#[test]
fn underscored_prefix_variant() {
    assert_eq!(demangle("___wrap_foo", true), "[___wrap_] foo");
    assert_eq!(demangle("__imp_GetProcAddress", true), "[__imp_] GetProcAddress");
    assert_eq!(demangle("#alias", true), "[#] alias");
}

#[test]
fn emutls_and_gcov_prefixes() {
    assert_eq!(demangle("__emutls_v.counter", true), "[__emutls_v.] counter");
    assert_eq!(demangle("__emutls_t.counter", true), "[__emutls_t.] counter");
    assert_eq!(demangle("_GLOBAL__sub_I_main", true), "[_GLOBAL__sub_I_] main");
    assert_eq!(demangle("__gcov_flush", true), "[__gcov_] flush");
    assert_eq!(demangle("__gcda_start", true), "[__gcda_] start");
    assert_eq!(demangle("__llvm_gcov_init", true), "[__llvm_gcov_] init");
}

#[test]
fn forwarder_notation_rewritten() {
    assert_eq!(demangle("Alias -> other.dll!Target", true), "Alias ->[[other.dll]] Target");
}

#[test]
fn forwarder_demangles_both_sides() {
    assert_eq!(
        demangle("_ZN3foo3barEv -> lib.dll!_ZN3baz3quxEv", true),
        "foo::bar() ->[[lib.dll]] baz::qux()"
    );
}

#[test]
fn two_arrows_left_alone() {
    assert_eq!(demangle("a -> b -> c!d", true), "a -> b -> c!d");
}

#[test]
fn arrow_without_bang_left_alone() {
    assert_eq!(demangle("a -> b", true), "a -> b");
}

#[test]
fn demangling_is_idempotent_on_samples() {
    let samples = [
        "_ZN3foo3barEv",
        "__wrap_foo",
        "___wrap_foo",
        "__wrap__ZN3foo3barEv",
        "Alias -> other.dll!Target",
        "_ZN3foo3barEv -> lib.dll!_ZN3baz3quxEv",
        "a -> b -> c!d",
        "just_a_name",
        "#alias",
        "",
    ];
    for s in samples {
        let once = demangle(s, true);
        let twice = demangle(&once, true);
        assert_eq!(twice, once, "demangling {:?} twice diverged", s);
    }
}
