//! The ELF analyzer: imports, exports and declared dependencies of a
//! decoded ELF image, the ordered dependency search list, and import
//! attribution by greedy export-set matching in declared order.

use vstd::prelude::*;

use crate::attr::{
    add_to_bucket, attr_step, bmap, bucket_names, buckets_avoid, buckets_disjoint, deps_view,
    in_buckets, lemma_attr_step_first_claims, lemma_attribution_conserves, lemma_claim_preserves,
    sentinel, with_sentinel, Bucket,
};
use crate::strutil::{
    find_from, lemma_first_occ_from, occurs_at, push_unique, seq_unique, split_char_spec,
    split_colon, vec_difference, vec_intersect,
};

verus! {

/// Global symbol binding, as the dynamic symbol table encodes it.
pub const STB_GLOBAL: u8 = 1;

/// Weak symbol binding, as the dynamic symbol table encodes it.
pub const STB_WEAK: u8 = 2;

/// One decoded entry of the dynamic symbol table.
pub struct ElfSym {
    /// The symbol's name; empty when the string table gave none.
    pub name: String,
    /// The symbol's value (its address, for a defined symbol).
    pub value: u64,
    /// The symbol's binding class.
    pub bind: u8,
    /// Whether the entry references a symbol defined elsewhere.
    pub undefined: bool,
}

/// A decoded ELF image: what the analyzer reads of one file.
pub struct ElfBinary {
    /// Whether the image is 64-bit.
    pub is_64: bool,
    /// The declared needed libraries, in declared order.
    pub libraries: Vec<String>,
    /// The dynamic symbol table.
    pub dynsyms: Vec<ElfSym>,
    /// The RPATH search-path list of the dynamic section, if declared.
    pub rpath: Option<String>,
    /// The RUNPATH search-path list of the dynamic section, if declared.
    pub runpath: Option<String>,
}

/// Whether a decoded symbol counts as an import: a reference to a symbol
/// defined elsewhere, with global or weak binding.
pub open spec fn is_import_spec(s: ElfSym) -> bool {
    s.undefined && (s.bind == STB_GLOBAL || s.bind == STB_WEAK)
}

/// Whether a decoded symbol counts as an export: global, non-weak binding
/// with a nonzero value.
pub open spec fn is_export_spec(s: ElfSym) -> bool {
    s.bind == STB_GLOBAL && s.value != 0
}

/// The names of the import symbols of a symbol table.
pub open spec fn import_names(syms: Seq<ElfSym>) -> Set<Seq<char>> {
    Set::new(
        |sym: Seq<char>|
            exists|i: int|
                0 <= i < syms.len() && #[trigger] is_import_spec(syms[i]) && syms[i].name@ == sym,
    )
}

/// The names of the export symbols of a symbol table.
pub open spec fn export_names(syms: Seq<ElfSym>) -> Set<Seq<char>> {
    Set::new(
        |sym: Seq<char>|
            exists|i: int|
                0 <= i < syms.len() && #[trigger] is_export_spec(syms[i]) && syms[i].name@ == sym,
    )
}

/// Whether a decoded symbol counts as an import.
pub fn is_import(sym: &ElfSym) -> (r: bool)
    ensures
        r == is_import_spec(*sym),
{
    sym.undefined && (sym.bind == STB_GLOBAL || sym.bind == STB_WEAK)
}

/// The ELF analyzer over one decoded image.
pub struct ElfAnalyzer {
    pub bin: ElfBinary,
}

impl ElfAnalyzer {
    /// Wraps a decoded image.
    pub fn from_bin(bin: ElfBinary) -> (r: Self)
        ensures
            r.bin == bin,
    {
        ElfAnalyzer { bin }
    }

    /// The export set of a decoded image, each name once.
    pub fn exports_impl(bin: &ElfBinary) -> (r: Vec<String>)
        ensures
            seq_unique(r.deep_view()),
            r.deep_view().to_set() == export_names(bin.dynsyms@),
    {
        let mut r: Vec<String> = Vec::new();
        let mut i: usize = 0;
        while i < bin.dynsyms.len()
            invariant
                i <= bin.dynsyms@.len(),
                seq_unique(r.deep_view()),
                forall|sym: Seq<char>| #![auto]
                    r.deep_view().contains(sym) <==> exists|t: int|
                        0 <= t < i && #[trigger] is_export_spec(bin.dynsyms@[t])
                            && bin.dynsyms@[t].name@ == sym,
            decreases bin.dynsyms@.len() - i,
        {
            let ghost pre = r.deep_view();
            let s = &bin.dynsyms[i];
            let exported = s.bind == STB_GLOBAL && s.value != 0;
            if exported {
                push_unique(&mut r, s.name.clone());
            }
            proof {
                assert forall|sym: Seq<char>| #![auto] r.deep_view().contains(sym) <==> exists|
                    t: int,
                |
                    0 <= t < i + 1 && #[trigger] is_export_spec(bin.dynsyms@[t])
                        && bin.dynsyms@[t].name@ == sym by {
                    if r.deep_view().contains(sym) {
                        if pre.contains(sym) {
                            let t = choose|t: int|
                                0 <= t < i && #[trigger] is_export_spec(bin.dynsyms@[t])
                                    && bin.dynsyms@[t].name@ == sym;
                            assert(0 <= t < i + 1 && is_export_spec(bin.dynsyms@[t])
                                && bin.dynsyms@[t].name@ == sym);
                        } else {
                            assert(exported && sym == bin.dynsyms@[i as int].name@);
                            assert(is_export_spec(bin.dynsyms@[i as int]));
                        }
                    }
                    if exists|t: int|
                        0 <= t < i + 1 && #[trigger] is_export_spec(bin.dynsyms@[t])
                            && bin.dynsyms@[t].name@ == sym {
                        let t = choose|t: int|
                            0 <= t < i + 1 && #[trigger] is_export_spec(bin.dynsyms@[t])
                                && bin.dynsyms@[t].name@ == sym;
                        if t < i {
                            assert(pre.contains(sym));
                        } else {
                            assert(exported);
                        }
                        assert(r.deep_view().contains(sym));
                    }
                }
            }
            i += 1;
        }
        proof {
            assert(r.deep_view().to_set() =~= export_names(bin.dynsyms@));
        }
        r
    }

    /// The export set of the analyzed image.
    pub fn exports(&self) -> (r: Vec<String>)
        ensures
            seq_unique(r.deep_view()),
            r.deep_view().to_set() == export_names(self.bin.dynsyms@),
    {
        Self::exports_impl(&self.bin)
    }

    /// The import set of the analyzed image, each name once.
    pub fn imports(&self) -> (r: Vec<String>)
        ensures
            seq_unique(r.deep_view()),
            r.deep_view().to_set() == import_names(self.bin.dynsyms@),
    {
        let bin = &self.bin;
        let mut r: Vec<String> = Vec::new();
        let mut i: usize = 0;
        while i < bin.dynsyms.len()
            invariant
                i <= bin.dynsyms@.len(),
                seq_unique(r.deep_view()),
                forall|sym: Seq<char>| #![auto]
                    r.deep_view().contains(sym) <==> exists|t: int|
                        0 <= t < i && #[trigger] is_import_spec(bin.dynsyms@[t])
                            && bin.dynsyms@[t].name@ == sym,
            decreases bin.dynsyms@.len() - i,
        {
            let ghost pre = r.deep_view();
            let s = &bin.dynsyms[i];
            let imported = is_import(s);
            if imported {
                push_unique(&mut r, s.name.clone());
            }
            proof {
                assert forall|sym: Seq<char>| #![auto] r.deep_view().contains(sym) <==> exists|
                    t: int,
                |
                    0 <= t < i + 1 && #[trigger] is_import_spec(bin.dynsyms@[t])
                        && bin.dynsyms@[t].name@ == sym by {
                    if r.deep_view().contains(sym) {
                        if pre.contains(sym) {
                            let t = choose|t: int|
                                0 <= t < i && #[trigger] is_import_spec(bin.dynsyms@[t])
                                    && bin.dynsyms@[t].name@ == sym;
                            assert(0 <= t < i + 1 && is_import_spec(bin.dynsyms@[t])
                                && bin.dynsyms@[t].name@ == sym);
                        } else {
                            assert(imported && sym == bin.dynsyms@[i as int].name@);
                        }
                    }
                    if exists|t: int|
                        0 <= t < i + 1 && #[trigger] is_import_spec(bin.dynsyms@[t])
                            && bin.dynsyms@[t].name@ == sym {
                        let t = choose|t: int|
                            0 <= t < i + 1 && #[trigger] is_import_spec(bin.dynsyms@[t])
                                && bin.dynsyms@[t].name@ == sym;
                        if t < i {
                            assert(pre.contains(sym));
                        } else {
                            assert(imported);
                        }
                        assert(r.deep_view().contains(sym));
                    }
                }
            }
            i += 1;
        }
        proof {
            assert(r.deep_view().to_set() =~= import_names(bin.dynsyms@));
        }
        r
    }

    /// The declared dependency names, each once.
    pub fn deps(&self) -> (r: Vec<String>)
        ensures
            seq_unique(r.deep_view()),
            r.deep_view().to_set() == self.bin.libraries.deep_view().to_set(),
    {
        let mut r: Vec<String> = Vec::new();
        let mut i: usize = 0;
        let ghost libs = self.bin.libraries.deep_view();
        while i < self.bin.libraries.len()
            invariant
                i <= libs.len(),
                libs == self.bin.libraries.deep_view(),
                seq_unique(r.deep_view()),
                forall|sym: Seq<char>| #![auto]
                    r.deep_view().contains(sym) <==> libs.take(i as int).contains(sym),
            decreases libs.len() - i,
        {
            let ghost pre = r.deep_view();
            push_unique(&mut r, self.bin.libraries[i].clone());
            proof {
                assert(libs.take(i + 1).drop_last() =~= libs.take(i as int));
                assert(libs.take(i + 1).last() == libs[i as int]);
                assert forall|sym: Seq<char>| #![auto] r.deep_view().contains(sym) <==> libs.take(
                    i + 1,
                ).contains(sym) by {
                    crate::strutil::lemma_push_contains(libs.take(i as int), libs[i as int], sym);
                    assert(libs.take(i + 1) =~= libs.take(i as int).push(libs[i as int]));
                }
            }
            i += 1;
        }
        proof {
            assert(libs.take(libs.len() as int) =~= libs);
            assert(r.deep_view().to_set() =~= libs.to_set());
        }
        r
    }

    /// A one-line description of the image: its format and bit width.
    pub fn description(&self) -> (r: String)
        ensures
            self.bin.is_64 ==> r@ == "ELF64"@,
            !self.bin.is_64 ==> r@ == "ELF32"@,
    {
        if self.bin.is_64 {
            String::from_str("ELF64")
        } else {
            String::from_str("ELF32")
        }
    }

    /// The ordered directory list of the dependency search: the image's
    /// RPATH list, then the directories of the LD_LIBRARY_PATH-style
    /// environment value, then the image's RUNPATH list, then the fixed
    /// system directories, in that order.
    pub fn search_dirs(&self, env_paths: &Option<String>) -> (r: Vec<String>)
        ensures
            r.deep_view() == opt_dirs(self.bin.rpath.deep_view()) + opt_dirs(
                env_paths.deep_view(),
            ) + opt_dirs(self.bin.runpath.deep_view()) + seq!["/lib"@, "/usr/lib"@],
    {
        let mut r: Vec<String> = Vec::new();
        match &self.bin.rpath {
            None => {},
            Some(p) => {
                let mut parts = split_colon(p.as_str());
                r.append(&mut parts);
            },
        }
        proof {
            assert(r.deep_view() =~= opt_dirs(self.bin.rpath.deep_view()));
        }
        let ghost r1 = r.deep_view();
        match env_paths {
            None => {},
            Some(p) => {
                let mut parts = split_colon(p.as_str());
                r.append(&mut parts);
            },
        }
        proof {
            assert(r.deep_view() =~= r1 + opt_dirs(env_paths.deep_view()));
        }
        let ghost r2 = r.deep_view();
        match &self.bin.runpath {
            None => {},
            Some(p) => {
                let mut parts = split_colon(p.as_str());
                r.append(&mut parts);
            },
        }
        proof {
            assert(r.deep_view() =~= r2 + opt_dirs(self.bin.runpath.deep_view()));
        }
        let ghost r3 = r.deep_view();
        r.push(String::from_str("/lib"));
        r.push(String::from_str("/usr/lib"));
        proof {
            assert(r.deep_view() =~= r3 + seq!["/lib"@, "/usr/lib"@]);
            assert(r.deep_view() =~= opt_dirs(self.bin.rpath.deep_view()) + opt_dirs(
                env_paths.deep_view(),
            ) + opt_dirs(self.bin.runpath.deep_view()) + seq!["/lib"@, "/usr/lib"@]);
        }
        r
    }

    /// The attribution map: each declared dependency's bucket holds the
    /// imports its export set claims, first declared first served, and the
    /// reserved bucket holds what no dependency claimed. `dep_exports`
    /// carries, for each declared dependency in order, its export set —
    /// or nothing, where its path or parse failed.
    pub fn imp_deps(&self, dep_exports: &Vec<Option<Vec<String>>>) -> (r: Vec<Bucket>)
        requires
            dep_exports@.len() == self.bin.libraries@.len(),
        ensures
            seq_unique(bucket_names(r@)),
            forall|t: int| #![auto] 0 <= t < r@.len() ==> seq_unique(r@[t].syms.deep_view()),
            bmap(r@) == ({
                let (m, rem) = attr_step(
                    Map::empty(),
                    import_names(self.bin.dynsyms@),
                    deps_view(self.bin.libraries.deep_view(), dep_exports.deep_view()),
                );
                with_sentinel(m, rem)
            }),
    {
        let ghost imports0 = import_names(self.bin.dynsyms@);
        let ghost depsv = deps_view(self.bin.libraries.deep_view(), dep_exports.deep_view());
        let mut rem: Vec<String> = self.imports();
        let mut buckets: Vec<Bucket> = Vec::new();
        let n: usize = self.bin.libraries.len();
        let mut idx: usize = 0;
        proof {
            assert(depsv.skip(0) =~= depsv);
        }
        while idx < n
            invariant
                idx <= n,
                n == self.bin.libraries@.len(),
                dep_exports@.len() == n,
                depsv == deps_view(self.bin.libraries.deep_view(), dep_exports.deep_view()),
                depsv.len() == n,
                seq_unique(rem.deep_view()),
                seq_unique(bucket_names(buckets@)),
                forall|t: int| #![auto]
                    0 <= t < buckets@.len() ==> seq_unique(buckets@[t].syms.deep_view()),
                buckets_disjoint(bmap(buckets@)),
                buckets_avoid(bmap(buckets@), rem.deep_view().to_set()),
                attr_step(bmap(buckets@), rem.deep_view().to_set(), depsv.skip(idx as int))
                    == attr_step(Map::empty(), imports0, depsv),
            decreases n - idx,
        {
            let ghost m0 = bmap(buckets@);
            let ghost rem_s = rem.deep_view().to_set();
            proof {
                assert(depsv.skip(idx as int)[0] == depsv[idx as int]);
                assert(depsv.skip(idx as int).drop_first() =~= depsv.skip(idx + 1));
            }
            match &dep_exports[idx] {
                None => {
                    proof {
                        assert(depsv[idx as int].1 is None);
                        assert(attr_step(m0, rem_s, depsv.skip(idx as int)) == attr_step(
                            m0,
                            rem_s,
                            depsv.skip(idx + 1),
                        ));
                    }
                },
                Some(exp) => {
                    let ghost exp_s = exp.deep_view().to_set();
                    proof {
                        assert(depsv[idx as int].1 == Some(exp_s));
                    }
                    let claimed = vec_intersect(&rem, exp);
                    let rest = vec_difference(&rem, exp);
                    proof {
                        assert(claimed.deep_view().to_set() =~= rem_s.intersect(exp_s));
                        assert(rest.deep_view().to_set() =~= rem_s.difference(exp_s));
                        assert forall|sym: Seq<char>| #![auto]
                            claimed.deep_view().contains(sym) implies !in_buckets(m0, sym) by {
                            if in_buckets(m0, sym) {
                                let k = choose|k: Seq<char>|
                                    m0.dom().contains(k) && #[trigger] m0[k].contains(sym);
                                assert(!rem_s.contains(sym));
                            }
                        }
                        lemma_claim_preserves(m0, rem_s, depsv[idx as int].0, exp_s);
                    }
                    let name = self.bin.libraries[idx].clone();
                    proof {
                        assert(name@ == depsv[idx as int].0);
                    }
                    add_to_bucket(&mut buckets, name, claimed);
                    rem = rest;
                    proof {
                        assert(attr_step(m0, rem_s, depsv.skip(idx as int)) == attr_step(
                            bmap(buckets@),
                            rem.deep_view().to_set(),
                            depsv.skip(idx + 1),
                        ));
                    }
                },
            }
            idx += 1;
        }
        proof {
            assert(depsv.skip(n as int) =~= Seq::<(Seq<char>, Option<Set<Seq<char>>>)>::empty());
            assert(attr_step(bmap(buckets@), rem.deep_view().to_set(), depsv.skip(n as int)) == (
                bmap(buckets@),
                rem.deep_view().to_set(),
            ));
        }
        let ghost m_final = bmap(buckets@);
        let ghost rem_final = rem.deep_view().to_set();
        if rem.len() > 0 {
            proof {
                assert(rem.deep_view().contains(rem.deep_view()[0]));
                assert(rem_final.contains(rem.deep_view()[0]));
                assert(!rem_final.is_empty());
                assert forall|sym: Seq<char>| #![auto] rem.deep_view().contains(sym) implies
                    !in_buckets(m_final, sym) by {
                    if in_buckets(m_final, sym) {
                        let k = choose|k: Seq<char>|
                            m_final.dom().contains(k) && #[trigger] m_final[k].contains(sym);
                        assert(!rem_final.contains(sym));
                    }
                }
            }
            let s = sentinel();
            add_to_bucket(&mut buckets, s, rem);
        } else {
            proof {
                assert(rem_final =~= Set::<Seq<char>>::empty());
            }
        }
        buckets
    }
}

/// CONSERVATION for the ELF analyzer: over the very map its attribution
/// computes, the buckets — the reserved one included — are pairwise
/// disjoint and together hold exactly the image's import set, whatever
/// export sets the dependency resolution handed in.
pub proof fn lemma_elf_attribution_conserves(
    bin: ElfBinary,
    dep_exports: Seq<Option<Seq<Seq<char>>>>,
)
    ensures
        ({
            let (m, rem) = attr_step(
                Map::empty(),
                import_names(bin.dynsyms@),
                deps_view(bin.libraries.deep_view(), dep_exports),
            );
            let m1 = with_sentinel(m, rem);
            &&& forall|sym: Seq<char>| #![auto]
                in_buckets(m1, sym) <==> import_names(bin.dynsyms@).contains(sym)
            &&& buckets_disjoint(m1)
        }),
{
    lemma_attribution_conserves(
        import_names(bin.dynsyms@),
        deps_view(bin.libraries.deep_view(), dep_exports),
    );
}

/// DETERMINISM AND TIE-BREAK for the ELF analyzer: an import goes to the
/// first dependency in declared order whose exports could be read and hold
/// it, whatever any later dependency exports — the attribution is a
/// function of the declared list alone, in its order.
pub proof fn lemma_elf_tie_break(
    bin: ElfBinary,
    dep_exports: Seq<Option<Seq<Seq<char>>>>,
    i: int,
    sym: Seq<char>,
)
    requires
        dep_exports.len() == bin.libraries@.len(),
        0 <= i < bin.libraries@.len(),
        dep_exports[i] is Some,
        dep_exports[i]->0.to_set().contains(sym),
        forall|j: int|
            0 <= j < i ==> !(#[trigger] dep_exports[j] is Some
                && dep_exports[j]->0.to_set().contains(sym)),
        import_names(bin.dynsyms@).contains(sym),
    ensures
        ({
            let (m, rem) = attr_step(
                Map::empty(),
                import_names(bin.dynsyms@),
                deps_view(bin.libraries.deep_view(), dep_exports),
            );
            m.dom().contains(bin.libraries.deep_view()[i]) && m[bin.libraries.deep_view()[i]]
                .contains(sym)
        }),
{
    let dv = deps_view(bin.libraries.deep_view(), dep_exports);
    assert(dv[i].0 == bin.libraries.deep_view()[i]);
    assert(dv[i].1 is Some && dv[i].1->0.contains(sym));
    assert forall|j: int| 0 <= j < i implies !(#[trigger] dv[j].1 is Some
        && dv[j].1->0.contains(sym)) by {
        if dv[j].1 is Some {
            assert(dep_exports[j] is Some);
        }
    }
    lemma_attr_step_first_claims(
        Map::empty(),
        import_names(bin.dynsyms@),
        dv,
        i,
        sym,
    );
}

/// The directories of one optional search-path value, split on colons; an
/// absent value contributes none.
pub open spec fn opt_dirs(o: Option<Seq<char>>) -> Seq<Seq<char>> {
    match o {
        None => Seq::empty(),
        Some(s) => split_char_spec(s, ':'),
    }
}

/// Whether a dependency name is already a path of its own.
pub fn has_path_separator(name: &str) -> (r: bool)
    ensures
        r == name@.contains('/'),
{
    proof {
        reveal_strlit("/");
        assert("/"@ =~= seq!['/']);
    }
    let f = find_from(name, "/", 0);
    proof {
        lemma_first_occ_from(name@, seq!['/'], 0);
    }
    match f {
        Some(i) => {
            proof {
                assert(occurs_at(name@, seq!['/'], i as int));
                assert(name@.subrange(i as int, i + 1)[0] == name@[i as int]);
                assert(name@[i as int] == '/');
            }
            true
        },
        None => {
            proof {
                if name@.contains('/') {
                    let i = choose|i: int| 0 <= i < name@.len() && name@[i] == '/';
                    assert(name@.subrange(i, i + 1) =~= seq!['/']);
                    assert(occurs_at(name@, seq!['/'], i));
                }
            }
            false
        },
    }
}

} // verus!
