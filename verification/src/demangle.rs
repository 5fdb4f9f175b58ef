//! The symbol demangler: a total transform from a symbol name to a display
//! string. It first offers the name to the platform demangler (which knows
//! the Itanium C++, Rust and MSVC schemes); failing that it strips known
//! toolchain-generated prefixes and recurses; failing that it rewrites the
//! two-part `name -> dll!target` forwarder notation; and otherwise it
//! returns the name unchanged.

use vstd::prelude::*;

use crate::strutil::{
    find_from, first_occ, first_occ_from, lemma_first_occ_from, occurs_at, str_eq, starts_with,
};
use symbolic_common::Name;
use symbolic_demangle::{Demangle, DemangleOptions};

verus! {

/// What the platform demangler makes of a name, when it recognizes one of
/// its mangling schemes.
pub uninterp spec fn native_demangled(s: Seq<char>) -> Option<Seq<char>>;

/// Relies on symbolic_demangle::Demangle::demangle (reached through
/// symbolic_common::Name): it recognizes the Itanium C++, Rust and MSVC
/// mangling schemes, returns None for a name it cannot read, and its result
/// depends on the characters of the name alone.
#[verifier::external_body]
fn native_demangle(name: &str) -> (r: Option<String>)
    ensures
        r.deep_view() == native_demangled(name@),
{
    Name::from(name).demangle(DemangleOptions::complete())
}

/// `p` stands at the front of `s`.
pub open spec fn is_prefix(p: Seq<char>, s: Seq<char>) -> bool {
    occurs_at(s, p, 0)
}

/// The separator of the two-part forwarder notation.
pub open spec fn arrow() -> Seq<char> {
    seq![' ', '-', '>', ' ']
}

/// What a rewritten forwarder puts between the name and the library.
pub open spec fn arrow_open() -> Seq<char> {
    seq![' ', '-', '>', '[', '[']
}

/// What a rewritten forwarder puts between the library and the target.
pub open spec fn bracket_close() -> Seq<char> {
    seq![']', ']', ' ']
}

pub open spec fn stripped(p: Seq<char>, s: Seq<char>) -> Option<(Seq<char>, Seq<char>)> {
    Some((p, s.skip(p.len() as int)))
}

/// The first of the known toolchain prefixes that stands at the front of
/// `s` — each tried in its literal form and then preceded by the leading
/// underscore some platforms add — with the remainder after it.
pub open spec fn strip_prefix_spec(s: Seq<char>) -> Option<(Seq<char>, Seq<char>)> {
    if is_prefix("__imp_"@, s) {
        stripped("__imp_"@, s)
    } else if is_prefix("___imp_"@, s) {
        stripped("___imp_"@, s)
    } else if is_prefix("__wrap_"@, s) {
        stripped("__wrap_"@, s)
    } else if is_prefix("___wrap_"@, s) {
        stripped("___wrap_"@, s)
    } else if is_prefix("__emutls_v."@, s) {
        stripped("__emutls_v."@, s)
    } else if is_prefix("___emutls_v."@, s) {
        stripped("___emutls_v."@, s)
    } else if is_prefix("__emutls_t."@, s) {
        stripped("__emutls_t."@, s)
    } else if is_prefix("___emutls_t."@, s) {
        stripped("___emutls_t."@, s)
    } else if is_prefix("_GLOBAL__sub_I_"@, s) {
        stripped("_GLOBAL__sub_I_"@, s)
    } else if is_prefix("__GLOBAL__sub_I_"@, s) {
        stripped("__GLOBAL__sub_I_"@, s)
    } else if is_prefix("__gcov_"@, s) {
        stripped("__gcov_"@, s)
    } else if is_prefix("___gcov_"@, s) {
        stripped("___gcov_"@, s)
    } else if is_prefix("__gcda_"@, s) {
        stripped("__gcda_"@, s)
    } else if is_prefix("___gcda_"@, s) {
        stripped("___gcda_"@, s)
    } else if is_prefix("__llvm_gcov_"@, s) {
        stripped("__llvm_gcov_"@, s)
    } else if is_prefix("___llvm_gcov_"@, s) {
        stripped("___llvm_gcov_"@, s)
    } else if is_prefix("#"@, s) {
        stripped("#"@, s)
    } else if is_prefix("_#"@, s) {
        stripped("_#"@, s)
    } else {
        None
    }
}

/// What the demangler returns. With `native` true, the platform
/// demangler's answer is taken first when it changes the name; the
/// rewriting rules follow. With `native` false only the rules apply.
pub open spec fn demangle_with(s: Seq<char>, native: bool) -> Seq<char>
    decreases s.len(), 1int,
{
    if native {
        match native_demangled(s) {
            Some(t) => if t != s {
                t
            } else {
                fallback_with(s, native)
            },
            None => fallback_with(s, native),
        }
    } else {
        fallback_with(s, native)
    }
}

/// What the demangler returns of a name the platform demangler left alone.
pub open spec fn demangle_spec(s: Seq<char>) -> Seq<char> {
    demangle_with(s, true)
}

/// The demangler's own rewriting, after the platform demangler has passed:
/// prefix stripping with recursion, then the forwarder notation, then the
/// name unchanged.
pub open spec fn fallback_with(s: Seq<char>, native: bool) -> Seq<char>
    decreases s.len(), 0int,
{
    match strip_prefix_spec(s) {
        Some(pr) => if pr.1.len() < s.len() {
            seq!['['] + pr.0 + seq![']', ' '] + demangle_with(pr.1, native)
        } else {
            s
        },
        None => match first_occ(s, arrow()) {
            None => s,
            Some(i) => if first_occ_from(s, arrow(), i + 4) is Some {
                s
            } else if !(0 <= i && i + 4 <= s.len()) {
                s
            } else {
                let name = s.take(i);
                let rhs = s.skip(i + 4);
                match first_occ(rhs, seq!['!']) {
                    None => s,
                    Some(j) => if !(0 <= j && j < rhs.len()) {
                        s
                    } else {
                        let dll = rhs.take(j);
                        let after = rhs.skip(j + 1);
                        let target = match first_occ(after, seq!['!']) {
                            None => after,
                            Some(k) => if 0 <= k && k <= after.len() {
                                after.take(k)
                            } else {
                                after
                            },
                        };
                        if name.len() < s.len() && target.len() < s.len() {
                            demangle_with(name, native) + arrow_open() + dll + bracket_close()
                                + demangle_with(target, native)
                        } else {
                            s
                        }
                    },
                }
            },
        },
    }
}

/// No '!' stands in `s`.
pub open spec fn bang_free(s: Seq<char>) -> bool {
    forall|i: int| 0 <= i < s.len() ==> s[i] != '!'
}

/// A pattern differing from `x` at one position is no prefix of it.
proof fn lemma_not_prefix_at(p: Seq<char>, x: Seq<char>, i: int)
    requires
        0 <= i < p.len(),
        p.len() <= x.len() ==> p[i] != x[i],
    ensures
        !is_prefix(p, x),
{
    if is_prefix(p, x) {
        assert(x.subrange(0, p.len() as int)[i] == x[i]);
    }
}

proof fn reveal_prefix_table()
    ensures
        "__imp_"@ =~= seq!['_', '_', 'i', 'm', 'p', '_'],
        "___imp_"@ =~= seq!['_', '_', '_', 'i', 'm', 'p', '_'],
        "__wrap_"@ =~= seq!['_', '_', 'w', 'r', 'a', 'p', '_'],
        "___wrap_"@ =~= seq!['_', '_', '_', 'w', 'r', 'a', 'p', '_'],
        "__emutls_v."@ =~= seq!['_', '_', 'e', 'm', 'u', 't', 'l', 's', '_', 'v', '.'],
        "___emutls_v."@ =~= seq!['_', '_', '_', 'e', 'm', 'u', 't', 'l', 's', '_', 'v', '.'],
        "__emutls_t."@ =~= seq!['_', '_', 'e', 'm', 'u', 't', 'l', 's', '_', 't', '.'],
        "___emutls_t."@ =~= seq!['_', '_', '_', 'e', 'm', 'u', 't', 'l', 's', '_', 't', '.'],
        "_GLOBAL__sub_I_"@ =~= seq![
            '_', 'G', 'L', 'O', 'B', 'A', 'L', '_', '_', 's', 'u', 'b', '_', 'I', '_',
        ],
        "__GLOBAL__sub_I_"@ =~= seq![
            '_', '_', 'G', 'L', 'O', 'B', 'A', 'L', '_', '_', 's', 'u', 'b', '_', 'I', '_',
        ],
        "__gcov_"@ =~= seq!['_', '_', 'g', 'c', 'o', 'v', '_'],
        "___gcov_"@ =~= seq!['_', '_', '_', 'g', 'c', 'o', 'v', '_'],
        "__gcda_"@ =~= seq!['_', '_', 'g', 'c', 'd', 'a', '_'],
        "___gcda_"@ =~= seq!['_', '_', '_', 'g', 'c', 'd', 'a', '_'],
        "__llvm_gcov_"@ =~= seq!['_', '_', 'l', 'l', 'v', 'm', '_', 'g', 'c', 'o', 'v', '_'],
        "___llvm_gcov_"@ =~= seq![
            '_', '_', '_', 'l', 'l', 'v', 'm', '_', 'g', 'c', 'o', 'v', '_',
        ],
        "#"@ =~= seq!['#'],
        "_#"@ =~= seq!['_', '#'],
{
    reveal_strlit("__imp_");
    reveal_strlit("___imp_");
    reveal_strlit("__wrap_");
    reveal_strlit("___wrap_");
    reveal_strlit("__emutls_v.");
    reveal_strlit("___emutls_v.");
    reveal_strlit("__emutls_t.");
    reveal_strlit("___emutls_t.");
    reveal_strlit("_GLOBAL__sub_I_");
    reveal_strlit("__GLOBAL__sub_I_");
    reveal_strlit("__gcov_");
    reveal_strlit("___gcov_");
    reveal_strlit("__gcda_");
    reveal_strlit("___gcda_");
    reveal_strlit("__llvm_gcov_");
    reveal_strlit("___llvm_gcov_");
    reveal_strlit("#");
    reveal_strlit("_#");
}

/// What holds of a stripped prefix: the tag is one of the table's entries,
/// never empty, never holding '!', and the remainder is what follows it.
proof fn lemma_strip_props(s: Seq<char>)
    ensures
        match strip_prefix_spec(s) {
            Some(pr) => 1 <= pr.0.len() && pr.1 == s.skip(pr.0.len() as int) && pr.1.len()
                < s.len() && bang_free(pr.0) && pr.0[0] != '[',
            None => true,
        },
{
    reveal_prefix_table();
}

/// No entry of the prefix table begins with '[': a name opening with it
/// strips nothing.
proof fn lemma_strip_of_bracket(x: Seq<char>)
    requires
        x.len() >= 1,
        x[0] == '[',
    ensures
        strip_prefix_spec(x) is None,
{
    reveal_prefix_table();
    lemma_not_prefix_at("__imp_"@, x, 0);
    lemma_not_prefix_at("___imp_"@, x, 0);
    lemma_not_prefix_at("__wrap_"@, x, 0);
    lemma_not_prefix_at("___wrap_"@, x, 0);
    lemma_not_prefix_at("__emutls_v."@, x, 0);
    lemma_not_prefix_at("___emutls_v."@, x, 0);
    lemma_not_prefix_at("__emutls_t."@, x, 0);
    lemma_not_prefix_at("___emutls_t."@, x, 0);
    lemma_not_prefix_at("_GLOBAL__sub_I_"@, x, 0);
    lemma_not_prefix_at("__GLOBAL__sub_I_"@, x, 0);
    lemma_not_prefix_at("__gcov_"@, x, 0);
    lemma_not_prefix_at("___gcov_"@, x, 0);
    lemma_not_prefix_at("__gcda_"@, x, 0);
    lemma_not_prefix_at("___gcda_"@, x, 0);
    lemma_not_prefix_at("__llvm_gcov_"@, x, 0);
    lemma_not_prefix_at("___llvm_gcov_"@, x, 0);
    lemma_not_prefix_at("#"@, x, 0);
    lemma_not_prefix_at("_#"@, x, 0);
}

/// On a name without '!' whose front strips no prefix, the rules change
/// nothing: the forwarder notation needs a '!' after its arrow.
proof fn lemma_no_bang_no_fire(s: Seq<char>, native: bool)
    requires
        bang_free(s),
        strip_prefix_spec(s) is None,
    ensures
        fallback_with(s, native) == s,
{
    match first_occ(s, arrow()) {
        None => {},
        Some(i) => {
            if first_occ_from(s, arrow(), i + 4) is Some {
            } else {
                lemma_first_occ_from(s, arrow(), 0);
                let rhs = s.skip(i + 4);
                match first_occ(rhs, seq!['!']) {
                    None => {},
                    Some(j) => {
                        lemma_first_occ_from(rhs, seq!['!'], 0);
                        assert(rhs.subrange(j, j + 1)[0] == rhs[j]);
                        assert(rhs[j] == '!');
                        assert(s[i + 4 + j] == '!');
                    },
                }
            }
        },
    }
}

/// The rules put no '!' into a name that holds none.
proof fn lemma_plain_bang_free(s: Seq<char>)
    requires
        bang_free(s),
    ensures
        bang_free(demangle_with(s, false)),
    decreases s.len(),
{
    match strip_prefix_spec(s) {
        Some(pr) => {
            lemma_strip_props(s);
            assert(forall|t: int| 0 <= t < pr.1.len() ==> pr.1[t] == s[pr.0.len() + t]);
            lemma_plain_bang_free(pr.1);
            let out = seq!['['] + pr.0 + seq![']', ' '] + demangle_with(pr.1, false);
            assert(bang_free(out)) by {
                let a = seq!['['] + pr.0;
                let b = a + seq![']', ' '];
                assert(forall|t: int| 0 <= t < out.len() ==> {
                    ||| (0 <= t < b.len() && out[t] == b[t])
                    ||| (b.len() <= t && out[t] == demangle_with(pr.1, false)[t - b.len()])
                });
            }
        },
        None => {
            lemma_no_bang_no_fire(s, false);
        },
    }
}

/// A prefix of the front of `s` is a prefix of `s` itself.
proof fn lemma_prefix_of_take(p: Seq<char>, s: Seq<char>, i: int)
    requires
        0 <= i <= s.len(),
        is_prefix(p, s.take(i)),
    ensures
        is_prefix(p, s),
{
    assert(s.subrange(0, p.len() as int) =~= s.take(i).subrange(0, p.len() as int));
}

/// A name whose front strips nothing keeps that property when cut short.
proof fn lemma_strip_none_of_take(s: Seq<char>, i: int)
    requires
        strip_prefix_spec(s) is None,
        0 <= i <= s.len(),
    ensures
        strip_prefix_spec(s.take(i)) is None,
{
    let name = s.take(i);
    assert(!is_prefix("__imp_"@, name)) by {
        if is_prefix("__imp_"@, name) {
            lemma_prefix_of_take("__imp_"@, s, i);
        }
    }
    assert(!is_prefix("___imp_"@, name)) by {
        if is_prefix("___imp_"@, name) {
            lemma_prefix_of_take("___imp_"@, s, i);
        }
    }
    assert(!is_prefix("__wrap_"@, name)) by {
        if is_prefix("__wrap_"@, name) {
            lemma_prefix_of_take("__wrap_"@, s, i);
        }
    }
    assert(!is_prefix("___wrap_"@, name)) by {
        if is_prefix("___wrap_"@, name) {
            lemma_prefix_of_take("___wrap_"@, s, i);
        }
    }
    assert(!is_prefix("__emutls_v."@, name)) by {
        if is_prefix("__emutls_v."@, name) {
            lemma_prefix_of_take("__emutls_v."@, s, i);
        }
    }
    assert(!is_prefix("___emutls_v."@, name)) by {
        if is_prefix("___emutls_v."@, name) {
            lemma_prefix_of_take("___emutls_v."@, s, i);
        }
    }
    assert(!is_prefix("__emutls_t."@, name)) by {
        if is_prefix("__emutls_t."@, name) {
            lemma_prefix_of_take("__emutls_t."@, s, i);
        }
    }
    assert(!is_prefix("___emutls_t."@, name)) by {
        if is_prefix("___emutls_t."@, name) {
            lemma_prefix_of_take("___emutls_t."@, s, i);
        }
    }
    assert(!is_prefix("_GLOBAL__sub_I_"@, name)) by {
        if is_prefix("_GLOBAL__sub_I_"@, name) {
            lemma_prefix_of_take("_GLOBAL__sub_I_"@, s, i);
        }
    }
    assert(!is_prefix("__GLOBAL__sub_I_"@, name)) by {
        if is_prefix("__GLOBAL__sub_I_"@, name) {
            lemma_prefix_of_take("__GLOBAL__sub_I_"@, s, i);
        }
    }
    assert(!is_prefix("__gcov_"@, name)) by {
        if is_prefix("__gcov_"@, name) {
            lemma_prefix_of_take("__gcov_"@, s, i);
        }
    }
    assert(!is_prefix("___gcov_"@, name)) by {
        if is_prefix("___gcov_"@, name) {
            lemma_prefix_of_take("___gcov_"@, s, i);
        }
    }
    assert(!is_prefix("__gcda_"@, name)) by {
        if is_prefix("__gcda_"@, name) {
            lemma_prefix_of_take("__gcda_"@, s, i);
        }
    }
    assert(!is_prefix("___gcda_"@, name)) by {
        if is_prefix("___gcda_"@, name) {
            lemma_prefix_of_take("___gcda_"@, s, i);
        }
    }
    assert(!is_prefix("__llvm_gcov_"@, name)) by {
        if is_prefix("__llvm_gcov_"@, name) {
            lemma_prefix_of_take("__llvm_gcov_"@, s, i);
        }
    }
    assert(!is_prefix("___llvm_gcov_"@, name)) by {
        if is_prefix("___llvm_gcov_"@, name) {
            lemma_prefix_of_take("___llvm_gcov_"@, s, i);
        }
    }
    assert(!is_prefix("#"@, name)) by {
        if is_prefix("#"@, name) {
            lemma_prefix_of_take("#"@, s, i);
        }
    }
    assert(!is_prefix("_#"@, name)) by {
        if is_prefix("_#"@, name) {
            lemma_prefix_of_take("_#"@, s, i);
        }
    }
}

/// A space-free pattern that is no prefix of `s` is no prefix of a string
/// that copies `s` up to position `i` and holds a space there.
proof fn lemma_prefix_blocked(p: Seq<char>, o: Seq<char>, s: Seq<char>, i: int)
    requires
        !is_prefix(p, s),
        0 <= i <= s.len(),
        i < o.len(),
        forall|k: int| 0 <= k < i ==> o[k] == s[k],
        o[i] == ' ',
        forall|k: int| 0 <= k < p.len() ==> p[k] != ' ',
    ensures
        !is_prefix(p, o),
{
    if is_prefix(p, o) {
        if p.len() <= i {
            assert(s.subrange(0, p.len() as int) =~= o.subrange(0, p.len() as int));
        } else {
            assert(o.subrange(0, p.len() as int)[i] == o[i]);
        }
    }
}

/// No entry of the prefix table holds a space, so none reaches past the
/// copied front of the forwarder rule's output.
proof fn lemma_strip_blocked(o: Seq<char>, s: Seq<char>, i: int)
    requires
        strip_prefix_spec(s) is None,
        0 <= i <= s.len(),
        i < o.len(),
        forall|k: int| 0 <= k < i ==> o[k] == s[k],
        o[i] == ' ',
    ensures
        strip_prefix_spec(o) is None,
{
    reveal_prefix_table();
    lemma_prefix_blocked("__imp_"@, o, s, i);
    lemma_prefix_blocked("___imp_"@, o, s, i);
    lemma_prefix_blocked("__wrap_"@, o, s, i);
    lemma_prefix_blocked("___wrap_"@, o, s, i);
    lemma_prefix_blocked("__emutls_v."@, o, s, i);
    lemma_prefix_blocked("___emutls_v."@, o, s, i);
    lemma_prefix_blocked("__emutls_t."@, o, s, i);
    lemma_prefix_blocked("___emutls_t."@, o, s, i);
    lemma_prefix_blocked("_GLOBAL__sub_I_"@, o, s, i);
    lemma_prefix_blocked("__GLOBAL__sub_I_"@, o, s, i);
    lemma_prefix_blocked("__gcov_"@, o, s, i);
    lemma_prefix_blocked("___gcov_"@, o, s, i);
    lemma_prefix_blocked("__gcda_"@, o, s, i);
    lemma_prefix_blocked("___gcda_"@, o, s, i);
    lemma_prefix_blocked("__llvm_gcov_"@, o, s, i);
    lemma_prefix_blocked("___llvm_gcov_"@, o, s, i);
    lemma_prefix_blocked("#"@, o, s, i);
    lemma_prefix_blocked("_#"@, o, s, i);
}

/// The forwarder rule's output stands: with no prefix at its front, no
/// arrow inside the copied name and library parts, the name not ending in
/// a cut arrow, and nothing but the rewritten target after the brackets,
/// the rules leave the output unchanged.
proof fn lemma_forwarder_output_terminal(name: Seq<char>, dll: Seq<char>, d1: Seq<char>)
    requires
        strip_prefix_spec(name + arrow_open() + dll + bracket_close() + d1) is None,
        forall|q: int| !occurs_at(name, arrow(), q),
        forall|q: int| !occurs_at(dll, arrow(), q),
        bang_free(d1),
        !(name.len() >= 3 && name[name.len() - 3] == ' ' && name[name.len() - 2] == '-'
            && name[name.len() - 1] == '>'),
    ensures
        demangle_with(name + arrow_open() + dll + bracket_close() + d1, false) == name
            + arrow_open() + dll + bracket_close() + d1,
{
    let o = name + arrow_open() + dll + bracket_close() + d1;
    let n1 = name.len() as int;
    let b = n1 + 5 + dll.len() as int;
    assert(o.len() == b + 3 + d1.len());
    assert(forall|k: int| 0 <= k < n1 ==> o[k] == name[k]);
    assert(o[n1] == ' ' && o[n1 + 1] == '-' && o[n1 + 2] == '>' && o[n1 + 3] == '[' && o[n1 + 4]
        == '[');
    assert(forall|k: int| 0 <= k < dll.len() ==> o[n1 + 5 + k] == dll[k]);
    assert(o[b] == ']' && o[b + 1] == ']' && o[b + 2] == ' ');
    assert(forall|k: int| 0 <= k < d1.len() ==> o[b + 3 + k] == d1[k]);
    assert forall|q: int| occurs_at(o, arrow(), q) implies q >= b + 2 by {
        let w = o.subrange(q, q + 4);
        assert(w[0] == o[q] && w[1] == o[q + 1] && w[2] == o[q + 2] && w[3] == o[q + 3]);
        assert(o[q] == ' ' && o[q + 1] == '-' && o[q + 2] == '>' && o[q + 3] == ' ');
        if q + 4 <= n1 {
            assert(occurs_at(name, arrow(), q)) by {
                assert(name.subrange(q, q + 4) =~= arrow());
            }
        } else if q < b + 2 {
            if q == n1 - 3 {
                assert(name[n1 - 3] == ' ' && name[n1 - 2] == '-' && name[n1 - 1] == '>');
            } else if q == n1 - 2 || q == n1 - 1 || q == n1 || q == n1 + 1 || q == n1 + 2 || q
                == n1 + 3 || q == n1 + 4 {
            } else if q + 4 <= b {
                assert(occurs_at(dll, arrow(), q - n1 - 5)) by {
                    assert(dll.subrange(q - n1 - 5, q - n1 - 1) =~= arrow());
                }
            } else {
            }
        }
    }
    match first_occ(o, arrow()) {
        None => {},
        Some(q0) => {
            lemma_first_occ_from(o, arrow(), 0);
            if first_occ_from(o, arrow(), q0 + 4) is Some {
            } else {
                assert(q0 >= b + 2);
                let rhs = o.skip(q0 + 4);
                assert(bang_free(rhs)) by {
                    assert(forall|t: int|
                        0 <= t < rhs.len() ==> rhs[t] == d1[q0 + 4 + t - (b + 3)]);
                }
                match first_occ(rhs, seq!['!']) {
                    None => {},
                    Some(j) => {
                        lemma_first_occ_from(rhs, seq!['!'], 0);
                        assert(rhs.subrange(j, j + 1)[0] == rhs[j]);
                        assert(rhs[j] == '!');
                    },
                }
            }
        },
    }
}

/// IDEMPOTENT DEMANGLING, for the demangler's own rewriting rules: on any
/// name without '!', and on any name whose front strips no known prefix,
/// applying the rules to their own output changes nothing further. (What
/// the platform demangler's first step returns is outside this statement:
/// nothing is assumed of it here.)
pub proof fn lemma_rules_idempotent(s: Seq<char>)
    requires
        bang_free(s) || strip_prefix_spec(s) is None,
    ensures
        demangle_with(demangle_with(s, false), false) == demangle_with(s, false),
{
    let r = demangle_with(s, false);
    match strip_prefix_spec(s) {
        Some(pr) => {
            lemma_strip_props(s);
            assert(forall|t: int| 0 <= t < pr.1.len() ==> pr.1[t] == s[pr.0.len() + t]);
            lemma_plain_bang_free(pr.1);
            let rec = demangle_with(pr.1, false);
            assert(r == seq!['['] + pr.0 + seq![']', ' '] + rec);
            assert(r[0] == '[') by {
                assert((seq!['['] + pr.0)[0] == '[');
                assert(((seq!['['] + pr.0) + seq![']', ' '])[0] == '[');
            }
            assert(bang_free(r)) by {
                let b = (seq!['['] + pr.0) + seq![']', ' '];
                assert(forall|t: int| 0 <= t < r.len() ==> {
                    ||| (0 <= t < b.len() && r[t] == b[t])
                    ||| (b.len() <= t && r[t] == rec[t - b.len()])
                });
            }
            lemma_strip_of_bracket(r);
            lemma_no_bang_no_fire(r, false);
        },
        None => {
            if bang_free(s) {
                lemma_no_bang_no_fire(s, false);
            } else {
                match first_occ(s, arrow()) {
                    None => {},
                    Some(i) => {
                        lemma_first_occ_from(s, arrow(), 0);
                        if first_occ_from(s, arrow(), i + 4) is Some {
                        } else {
                            lemma_first_occ_from(s, arrow(), i + 4);
                            let name = s.take(i);
                            let rhs = s.skip(i + 4);
                            match first_occ(rhs, seq!['!']) {
                                None => {},
                                Some(j) => {
                                    lemma_first_occ_from(rhs, seq!['!'], 0);
                                    let dll = rhs.take(j);
                                    let after = rhs.skip(j + 1);
                                    let target = match first_occ(after, seq!['!']) {
                                        None => after,
                                        Some(k) => if 0 <= k && k <= after.len() {
                                            after.take(k)
                                        } else {
                                            after
                                        },
                                    };
                                    lemma_strip_none_of_take(s, i);
                                    assert forall|q: int| !occurs_at(name, arrow(), q) by {
                                        if occurs_at(name, arrow(), q) {
                                            assert(occurs_at(s, arrow(), q)) by {
                                                assert(s.subrange(q, q + 4) =~= name.subrange(
                                                    q,
                                                    q + 4,
                                                ));
                                            }
                                        }
                                    }
                                    lemma_first_occ_from(name, arrow(), 0);
                                    assert(first_occ(name, arrow()) is None);
                                    assert(demangle_with(name, false) == name);
                                    assert forall|t: int|
                                        0 <= t < rhs.len() implies rhs[t] == s[i + 4 + t] by {}
                                    assert(bang_free(target)) by {
                                        match first_occ(after, seq!['!']) {
                                            None => {
                                                lemma_first_occ_from(after, seq!['!'], 0);
                                                assert forall|t: int|
                                                    0 <= t < after.len() implies after[t]
                                                    != '!' by {
                                                    if after[t] == '!' {
                                                        assert(occurs_at(
                                                            after,
                                                            seq!['!'],
                                                            t,
                                                        )) by {
                                                            assert(after.subrange(t, t + 1)
                                                                =~= seq!['!']);
                                                        }
                                                    }
                                                }
                                            },
                                            Some(k) => {
                                                lemma_first_occ_from(after, seq!['!'], 0);
                                                assert forall|t: int|
                                                    0 <= t < k implies after[t] != '!' by {
                                                    if after[t] == '!' {
                                                        assert(occurs_at(
                                                            after,
                                                            seq!['!'],
                                                            t,
                                                        )) by {
                                                            assert(after.subrange(t, t + 1)
                                                                =~= seq!['!']);
                                                        }
                                                    }
                                                }
                                            },
                                        }
                                    }
                                    lemma_plain_bang_free(target);
                                    let d1 = demangle_with(target, false);
                                    assert(name.len() < s.len() && target.len() < s.len());
                                    let o = name + arrow_open() + dll + bracket_close() + d1;
                                    assert(r == o);
                                    assert forall|q: int| !occurs_at(dll, arrow(), q) by {
                                        if occurs_at(dll, arrow(), q) {
                                            assert(occurs_at(s, arrow(), i + 4 + q)) by {
                                                assert(s.subrange(i + 4 + q, i + 8 + q)
                                                    =~= dll.subrange(q, q + 4));
                                            }
                                        }
                                    }
                                    if name.len() >= 3 && name[i - 3] == ' ' && name[i - 2]
                                        == '-' && name[i - 1] == '>' {
                                        assert(s.subrange(i, i + 4) == arrow());
                                        assert(s[i] == ' ') by {
                                            assert(s.subrange(i, i + 4)[0] == s[i]);
                                        }
                                        assert(occurs_at(s, arrow(), i - 3)) by {
                                            assert(s.subrange(i - 3, i + 1) =~= arrow());
                                        }
                                        assert(false);
                                    }
                                    assert(forall|k: int| 0 <= k < i ==> o[k] == s[k]);
                                    assert(o[i as int] == ' ');
                                    lemma_strip_blocked(o, s, i);
                                    lemma_forwarder_output_terminal(name, dll, d1);
                                },
                            }
                        }
                    },
                }
            }
        },
    }
}

/// PREFIX RECURSION, for the demangler's own rewriting rules: a name
/// beginning with "__wrap_" rewrites to the literal tag "[__wrap_] "
/// followed by the rewriting of the remainder.
pub proof fn lemma_wrap_prefix(s: Seq<char>)
    ensures
        demangle_with("__wrap_"@ + s, false) == "[__wrap_] "@ + demangle_with(s, false),
{
    reveal_prefix_table();
    reveal_strlit("[__wrap_] ");
    let w = "__wrap_"@ + s;
    lemma_not_prefix_at("__imp_"@, w, 2);
    lemma_not_prefix_at("___imp_"@, w, 2);
    assert(is_prefix("__wrap_"@, w)) by {
        assert(w.subrange(0, 7) =~= "__wrap_"@);
    }
    assert(w.skip(7) =~= s);
    assert(demangle_with(w, false) == seq!['['] + "__wrap_"@ + seq![']', ' '] + demangle_with(
        s,
        false,
    ));
    assert("[__wrap_] "@ + demangle_with(s, false) =~= seq!['['] + "__wrap_"@ + seq![']', ' ']
        + demangle_with(s, false));
}

fn try_strip<'a>(name: &'a str, p: &'static str) -> (r: Option<&'a str>)
    requires
        p@.len() >= 1,
    ensures
        match r {
            Some(rest) => is_prefix(p@, name@) && rest@ == name@.skip(p@.len() as int),
            None => !is_prefix(p@, name@),
        },
{
    if starts_with(name, p) {
        let m: usize = p.unicode_len();
        let n: usize = name.unicode_len();
        let rest = name.substring_char(m, n);
        proof {
            assert(rest@ =~= name@.skip(p@.len() as int));
        }
        Some(rest)
    } else {
        None
    }
}

fn strip_known<'a>(name: &'a str) -> (r: Option<(&'static str, &'a str)>)
    ensures
        match r {
            Some(pr) => strip_prefix_spec(name@) == Some((pr.0@, pr.1@)) && pr.1@.len()
                < name@.len(),
            None => strip_prefix_spec(name@) is None,
        },
{
    proof {
        reveal_strlit("__imp_");
        reveal_strlit("___imp_");
        reveal_strlit("__wrap_");
        reveal_strlit("___wrap_");
        reveal_strlit("__emutls_v.");
        reveal_strlit("___emutls_v.");
        reveal_strlit("__emutls_t.");
        reveal_strlit("___emutls_t.");
        reveal_strlit("_GLOBAL__sub_I_");
        reveal_strlit("__GLOBAL__sub_I_");
        reveal_strlit("__gcov_");
        reveal_strlit("___gcov_");
        reveal_strlit("__gcda_");
        reveal_strlit("___gcda_");
        reveal_strlit("__llvm_gcov_");
        reveal_strlit("___llvm_gcov_");
        reveal_strlit("#");
        reveal_strlit("_#");
    }
    if let Some(rest) = try_strip(name, "__imp_") {
        return Some(("__imp_", rest));
    }
    if let Some(rest) = try_strip(name, "___imp_") {
        return Some(("___imp_", rest));
    }
    if let Some(rest) = try_strip(name, "__wrap_") {
        return Some(("__wrap_", rest));
    }
    if let Some(rest) = try_strip(name, "___wrap_") {
        return Some(("___wrap_", rest));
    }
    if let Some(rest) = try_strip(name, "__emutls_v.") {
        return Some(("__emutls_v.", rest));
    }
    if let Some(rest) = try_strip(name, "___emutls_v.") {
        return Some(("___emutls_v.", rest));
    }
    if let Some(rest) = try_strip(name, "__emutls_t.") {
        return Some(("__emutls_t.", rest));
    }
    if let Some(rest) = try_strip(name, "___emutls_t.") {
        return Some(("___emutls_t.", rest));
    }
    if let Some(rest) = try_strip(name, "_GLOBAL__sub_I_") {
        return Some(("_GLOBAL__sub_I_", rest));
    }
    if let Some(rest) = try_strip(name, "__GLOBAL__sub_I_") {
        return Some(("__GLOBAL__sub_I_", rest));
    }
    if let Some(rest) = try_strip(name, "__gcov_") {
        return Some(("__gcov_", rest));
    }
    if let Some(rest) = try_strip(name, "___gcov_") {
        return Some(("___gcov_", rest));
    }
    if let Some(rest) = try_strip(name, "__gcda_") {
        return Some(("__gcda_", rest));
    }
    if let Some(rest) = try_strip(name, "___gcda_") {
        return Some(("___gcda_", rest));
    }
    if let Some(rest) = try_strip(name, "__llvm_gcov_") {
        return Some(("__llvm_gcov_", rest));
    }
    if let Some(rest) = try_strip(name, "___llvm_gcov_") {
        return Some(("___llvm_gcov_", rest));
    }
    if let Some(rest) = try_strip(name, "#") {
        return Some(("#", rest));
    }
    if let Some(rest) = try_strip(name, "_#") {
        return Some(("_#", rest));
    }
    None
}

/// Demangles a symbol name for display. With `de` false the name passes
/// through untouched; with `de` true the result is the demangler's
/// transform, which never fails and leaves unrecognized names unchanged.
pub fn demangle(name: &str, de: bool) -> (r: String)
    ensures
        de ==> r@ == demangle_spec(name@),
        !de ==> r@ == name@,
    decreases name@.len(),
{
    if !de {
        return name.to_owned();
    }
    let nat_r = native_demangle(name);
    if let Some(t) = nat_r {
        if !str_eq(t.as_str(), name) {
            return t;
        }
    }
    if let Some((tag, rest)) = strip_known(name) {
        let mut out = String::from_str("[");
        out.append(tag);
        out.append("] ");
        let rec = demangle(rest, true);
        out.append(rec.as_str());
        proof {
            reveal_strlit("[");
            reveal_strlit("] ");
            assert(out@ =~= seq!['['] + tag@ + seq![']', ' '] + demangle_spec(rest@));
        }
        return out;
    }
    let n: usize = name.unicode_len();
    proof {
        reveal_strlit(" -> ");
        assert(" -> "@ =~= arrow());
        reveal_strlit("!");
        assert("!"@ =~= seq!['!']);
    }
    match find_from(name, " -> ", 0) {
        None => name.to_owned(),
        Some(i) => {
            proof {
                lemma_first_occ_from(name@, arrow(), 0);
            }
            let second = find_from(name, " -> ", i + 4);
            match second {
                Some(_) => name.to_owned(),
                None => {
                    let head = name.substring_char(0, i);
                    let rhs = name.substring_char(i + 4, n);
                    proof {
                        assert(head@ =~= name@.take(i as int));
                        assert(rhs@ =~= name@.skip(i + 4));
                    }
                    let m: usize = rhs.unicode_len();
                    match find_from(rhs, "!", 0) {
                        None => name.to_owned(),
                        Some(j) => {
                            proof {
                                lemma_first_occ_from(rhs@, seq!['!'], 0);
                            }
                            let dll = rhs.substring_char(0, j);
                            let after = rhs.substring_char(j + 1, m);
                            proof {
                                assert(dll@ =~= rhs@.take(j as int));
                                assert(after@ =~= rhs@.skip(j + 1));
                            }
                            let target = match find_from(after, "!", 0) {
                                None => after,
                                Some(k) => {
                                    proof {
                                        lemma_first_occ_from(after@, seq!['!'], 0);
                                    }
                                    let t = after.substring_char(0, k);
                                    proof {
                                        assert(t@ =~= after@.take(k as int));
                                    }
                                    t
                                },
                            };
                            let d0 = demangle(head, true);
                            let d1 = demangle(target, true);
                            let mut out = d0;
                            out.append(" ->[[");
                            out.append(dll);
                            out.append("]] ");
                            out.append(d1.as_str());
                            proof {
                                reveal_strlit(" ->[[");
                                reveal_strlit("]] ");
                                assert(" ->[["@ =~= arrow_open());
                                assert("]] "@ =~= bracket_close());
                                assert(out@ =~= demangle_spec(head@) + arrow_open() + dll@
                                    + bracket_close() + demangle_spec(target@));
                            }
                            out
                        },
                    }
                },
            }
        },
    }
}

} // verus!
