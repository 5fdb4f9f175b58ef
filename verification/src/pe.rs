//! The PE analyzer: imports, exports and dependencies of a decoded PE
//! image. PE import descriptors already carry their origin DLL, so
//! attribution is a regrouping; DLL names are case-folded before
//! comparison or grouping.

use vstd::prelude::*;

use crate::attr::{bmap, bucket_names, find_bucket, group_step, Bucket};
use crate::demangle::arrow;
use crate::strutil::{dec_spec, push_unique, seq_unique, u64_to_dec, vec_contains_str};

verus! {

/// What str::to_lowercase makes of a string.
pub uninterp spec fn lower_of(s: Seq<char>) -> Seq<char>;

/// Relies on str::to_lowercase: the result is the Unicode lowercase
/// equivalent and depends on the characters of the input alone.
#[verifier::external_body]
fn lowercase(s: &str) -> (r: String)
    ensures
        r@ == lower_of(s@),
{
    s.to_lowercase()
}

/// One decoded import descriptor entry: the DLL it names and the symbol.
pub struct PeImport {
    pub dll: String,
    pub name: String,
}

/// A decoded re-export: a forwarder to another DLL's export, by name or by
/// ordinal.
pub enum PeReexport {
    ByName { lib: String, export_name: String },
    ByOrdinal { lib: String, ordinal: u64 },
}

/// One decoded export directory entry.
pub struct PeExport {
    /// The exported name, where the name table gives one.
    pub name: Option<String>,
    /// The file offset of the exported location, where known.
    pub offset: Option<u64>,
    /// The forwarder, where the entry re-exports another DLL's symbol.
    pub reexport: Option<PeReexport>,
}

/// A decoded PE image: what the analyzer reads of one file.
pub struct PeBinary {
    /// Whether the image is PE32+.
    pub is_64: bool,
    pub imports: Vec<PeImport>,
    pub exports: Vec<PeExport>,
}

/// The case-folded dependency keys of the import descriptors.
pub open spec fn dep_keys(imps: Seq<PeImport>) -> Set<Seq<char>> {
    Set::new(
        |k: Seq<char>|
            exists|i: int| 0 <= i < imps.len() && lower_of(#[trigger] imps[i].dll@) == k,
    )
}

/// The imported symbol names.
pub open spec fn import_name_set(imps: Seq<PeImport>) -> Set<Seq<char>> {
    Set::new(
        |sym: Seq<char>| exists|i: int| 0 <= i < imps.len() && #[trigger] imps[i].name@ == sym,
    )
}

/// The import descriptors as (case-folded origin, symbol) pairs, in order.
pub open spec fn pe_items(imps: Seq<PeImport>) -> Seq<(Seq<char>, Seq<char>)> {
    Seq::new(imps.len(), |i: int| (lower_of(imps[i].dll@), imps[i].name@))
}

/// The display label of one export directory entry: its name, or an
/// offset label where it has none; a forwarder shows its target after an
/// arrow, the target DLL case-folded.
pub open spec fn export_label(e: PeExport) -> Seq<char> {
    let base = match e.name {
        Some(n) => n@,
        None => seq!['#'] + dec_spec(
            match e.offset {
                Some(o) => o as int,
                None => 0,
            },
        ),
    };
    match e.reexport {
        None => base,
        Some(PeReexport::ByName { lib, export_name }) => base + arrow() + lower_of(lib@)
            + seq!['!'] + export_name@,
        Some(PeReexport::ByOrdinal { lib, ordinal }) => base + arrow() + lower_of(lib@)
            + seq!['!', '#'] + dec_spec(ordinal as int),
    }
}

/// The display labels of the export directory.
pub open spec fn export_label_set(exps: Seq<PeExport>) -> Set<Seq<char>> {
    Set::new(
        |l: Seq<char>|
            exists|i: int| 0 <= i < exps.len() && export_label(#[trigger] exps[i]) == l,
    )
}

/// Joins one symbol into the bucket named `name`, creating the bucket when
/// none bears the name yet; a symbol already present is not repeated.
pub(crate) fn add_one_to_bucket(buckets: &mut Vec<Bucket>, name: String, sym: String)
    requires
        seq_unique(bucket_names(old(buckets)@)),
        forall|t: int| #![auto]
            0 <= t < old(buckets)@.len() ==> seq_unique(old(buckets)@[t].syms.deep_view()),
    ensures
        seq_unique(bucket_names(final(buckets)@)),
        forall|t: int| #![auto]
            0 <= t < final(buckets)@.len() ==> seq_unique(final(buckets)@[t].syms.deep_view()),
        bmap(final(buckets)@) == ({
            let m = bmap(old(buckets)@);
            let prev = if m.dom().contains(name@) {
                m[name@]
            } else {
                Set::empty()
            };
            m.insert(name@, prev.insert(sym@))
        }),
{
    let ghost bs0 = buckets@;
    let ghost m0 = bmap(buckets@);
    match find_bucket(buckets, name.as_str()) {
        None => {
            proof {
                crate::attr::lemma_bmap_dom(bs0, name@);
            }
            let ghost nm = name@;
            let ghost sm = sym@;
            let mut syms: Vec<String> = Vec::new();
            syms.push(sym);
            let b = Bucket { name, syms };
            buckets.push(b);
            proof {
                assert(buckets@.drop_last() =~= bs0);
                assert(!m0.dom().contains(nm));
                assert(buckets@.last().syms.deep_view() =~= seq![sm]);
                assert(buckets@.last().syms.deep_view().to_set() =~= Set::empty().insert(sm)) by {
                    let sq = buckets@.last().syms.deep_view();
                    assert forall|x: Seq<char>| #![auto] sq.contains(x) <==> x == sm by {
                        if sq.contains(x) {
                            let t = choose|t: int| 0 <= t < sq.len() && sq[t] == x;
                            assert(sq[t] == sm);
                        }
                        if x == sm {
                            assert(sq[0] == x);
                        }
                    }
                }
                assert forall|t: int| 0 <= t < bs0.len() implies crate::attr::bucket_names(
                    bs0,
                )[t] != nm by {
                    if bucket_names(bs0)[t] == nm {
                        assert(bucket_names(bs0).contains(nm));
                    }
                }
                assert(seq_unique(bucket_names(buckets@))) by {
                    assert(forall|t: int|
                        0 <= t < bs0.len() ==> bucket_names(buckets@)[t] == bucket_names(
                            bs0,
                        )[t]);
                    assert(bucket_names(buckets@)[bs0.len() as int] == nm);
                    assert forall|i: int, j: int|
                        0 <= i < j < bucket_names(buckets@).len() implies bucket_names(
                        buckets@,
                    )[i] != bucket_names(buckets@)[j] by {
                        if j == bs0.len() {
                            assert(bucket_names(buckets@)[i] == bucket_names(bs0)[i]);
                        } else {
                            assert(bucket_names(bs0)[i] != bucket_names(bs0)[j]);
                        }
                    }
                }
                assert(forall|t: int| #![auto]
                    0 <= t < buckets@.len() ==> seq_unique(buckets@[t].syms.deep_view()));
            }
        },
        Some(bi) => {
            proof {
                crate::attr::lemma_bmap_at(bs0, bi as int);
            }
            if vec_contains_str(&buckets[bi].syms, sym.as_str()) {
                proof {
                    let prev = m0[bs0[bi as int].name@];
                    assert(prev.contains(sym@)) by {
                        assert(bs0[bi as int].syms.deep_view().contains(sym@));
                    }
                    assert(prev.insert(sym@) =~= prev);
                    assert(m0.insert(name@, prev) =~= m0);
                }
            } else {
                let ghost old_b = bs0[bi as int];
                let ghost sm = sym@;
                let mut b = buckets.remove(bi);
                let ghost old_syms = b.syms.deep_view();
                b.syms.push(sym);
                proof {
                    assert(b.syms.deep_view() =~= old_syms.push(sm));
                }
                buckets.insert(bi, b);
                proof {
                    let b2 = buckets@[bi as int];
                    assert(buckets@ =~= bs0.update(bi as int, b2));
                    assert(b2.name@ == old_b.name@);
                    crate::attr::lemma_bmap_update(bs0, bi as int, b2);
                    let prev = m0[old_b.name@];
                    assert(b2.syms.deep_view().to_set() =~= prev.insert(sm)) by {
                        assert forall|x: Seq<char>| #![auto] b2.syms.deep_view().contains(x)
                            <==> (old_syms.contains(x) || x == sm) by {
                            crate::strutil::lemma_push_contains(old_syms, sm, x);
                        }
                    }
                    assert(!old_syms.contains(sm));
                    assert(seq_unique(b2.syms.deep_view())) by {
                        assert(forall|t: int| 0 <= t < old_syms.len() ==> old_syms[t] != sm);
                        assert(forall|t: int|
                            0 <= t < old_syms.len() ==> b2.syms.deep_view()[t] == old_syms[t]);
                        assert(b2.syms.deep_view()[old_syms.len() as int] == sm);
                    }
                    assert(seq_unique(bucket_names(buckets@))) by {
                        assert(bucket_names(buckets@) =~= bucket_names(bs0));
                    }
                    assert(forall|t: int| #![auto]
                        0 <= t < buckets@.len() ==> seq_unique(buckets@[t].syms.deep_view()))
                        by {
                        assert(forall|t: int|
                            0 <= t < buckets@.len() && t != bi ==> buckets@[t] == bs0[t]);
                    }
                }
            }
        },
    }
}

/// The display label of one export directory entry.
fn label_of(e: &PeExport) -> (r: String)
    ensures
        r@ == export_label(*e),
{
    proof {
        reveal_strlit("#");
        reveal_strlit(" -> ");
        reveal_strlit("!");
        reveal_strlit("!#");
        assert("#"@ =~= seq!['#']);
        assert(" -> "@ =~= arrow());
        assert("!"@ =~= seq!['!']);
        assert("!#"@ =~= seq!['!', '#']);
    }
    let mut base: String = match &e.name {
        Some(n) => n.clone(),
        None => {
            let off: u64 = match e.offset {
                Some(o) => o,
                None => 0,
            };
            let mut s = String::from_str("#");
            let d = u64_to_dec(off);
            s.append(d.as_str());
            s
        },
    };
    match &e.reexport {
        None => base,
        Some(PeReexport::ByName { lib, export_name }) => {
            base.append(" -> ");
            let low = lowercase(lib.as_str());
            base.append(low.as_str());
            base.append("!");
            base.append(export_name.as_str());
            base
        },
        Some(PeReexport::ByOrdinal { lib, ordinal }) => {
            base.append(" -> ");
            let low = lowercase(lib.as_str());
            base.append(low.as_str());
            base.append("!#");
            let d = u64_to_dec(*ordinal);
            base.append(d.as_str());
            base
        },
    }
}

/// The PE analyzer over one decoded image.
pub struct PEAnalyzer {
    pub bin: PeBinary,
}

impl PEAnalyzer {
    /// Wraps a decoded image.
    pub fn from_bin(bin: PeBinary) -> (r: Self)
        ensures
            r.bin == bin,
    {
        PEAnalyzer { bin }
    }

    /// A one-line description of the image: its format and flavor.
    pub fn description(&self) -> (r: String)
        ensures
            self.bin.is_64 ==> r@ == "PE32+"@,
            !self.bin.is_64 ==> r@ == "PE32"@,
    {
        if self.bin.is_64 {
            String::from_str("PE32+")
        } else {
            String::from_str("PE32")
        }
    }

    /// CASE NORMALIZATION: the dependency names are the case-folded DLL
    /// names of the import descriptors, each folded name once, so two
    /// descriptors differing only in case fold into one entry.
    pub fn deps(&self) -> (r: Vec<String>)
        ensures
            seq_unique(r.deep_view()),
            r.deep_view().to_set() == dep_keys(self.bin.imports@),
    {
        let imps = &self.bin.imports;
        let mut r: Vec<String> = Vec::new();
        let mut i: usize = 0;
        while i < imps.len()
            invariant
                i <= imps@.len(),
                seq_unique(r.deep_view()),
                forall|k: Seq<char>| #![auto]
                    r.deep_view().contains(k) <==> exists|t: int|
                        0 <= t < i && lower_of(#[trigger] imps@[t].dll@) == k,
            decreases imps@.len() - i,
        {
            let ghost pre = r.deep_view();
            let low = lowercase(imps[i].dll.as_str());
            push_unique(&mut r, low);
            proof {
                assert forall|k: Seq<char>| #![auto] r.deep_view().contains(k) <==> exists|t: int|
                    0 <= t < i + 1 && lower_of(#[trigger] imps@[t].dll@) == k by {
                    if r.deep_view().contains(k) {
                        if pre.contains(k) {
                            let t = choose|t: int|
                                0 <= t < i && lower_of(#[trigger] imps@[t].dll@) == k;
                            assert(0 <= t < i + 1 && lower_of(imps@[t].dll@) == k);
                        } else {
                            assert(lower_of(imps@[i as int].dll@) == k);
                        }
                    }
                    if exists|t: int| 0 <= t < i + 1 && lower_of(#[trigger] imps@[t].dll@) == k {
                        let t = choose|t: int|
                            0 <= t < i + 1 && lower_of(#[trigger] imps@[t].dll@) == k;
                        if t < i {
                            assert(pre.contains(k));
                        }
                        assert(r.deep_view().contains(k));
                    }
                }
            }
            i += 1;
        }
        proof {
            assert(r.deep_view().to_set() =~= dep_keys(self.bin.imports@));
        }
        r
    }

    /// The imported symbol names, each once.
    pub fn imports(&self) -> (r: Vec<String>)
        ensures
            seq_unique(r.deep_view()),
            r.deep_view().to_set() == import_name_set(self.bin.imports@),
    {
        let imps = &self.bin.imports;
        let mut r: Vec<String> = Vec::new();
        let mut i: usize = 0;
        while i < imps.len()
            invariant
                i <= imps@.len(),
                seq_unique(r.deep_view()),
                forall|sym: Seq<char>| #![auto]
                    r.deep_view().contains(sym) <==> exists|t: int|
                        0 <= t < i && #[trigger] imps@[t].name@ == sym,
            decreases imps@.len() - i,
        {
            let ghost pre = r.deep_view();
            push_unique(&mut r, imps[i].name.clone());
            proof {
                assert forall|sym: Seq<char>| #![auto] r.deep_view().contains(sym) <==> exists|
                    t: int,
                | 0 <= t < i + 1 && #[trigger] imps@[t].name@ == sym by {
                    if r.deep_view().contains(sym) {
                        if pre.contains(sym) {
                            let t = choose|t: int| 0 <= t < i && #[trigger] imps@[t].name@ == sym;
                            assert(0 <= t < i + 1 && imps@[t].name@ == sym);
                        } else {
                            assert(imps@[i as int].name@ == sym);
                        }
                    }
                    if exists|t: int| 0 <= t < i + 1 && #[trigger] imps@[t].name@ == sym {
                        let t = choose|t: int| 0 <= t < i + 1 && #[trigger] imps@[t].name@ == sym;
                        if t < i {
                            assert(pre.contains(sym));
                        }
                        assert(r.deep_view().contains(sym));
                    }
                }
            }
            i += 1;
        }
        proof {
            assert(r.deep_view().to_set() =~= import_name_set(self.bin.imports@));
        }
        r
    }

    /// The attribution map: PE import descriptors carry their origin, so
    /// each import goes to its descriptor's case-folded DLL name; the
    /// reserved bucket is never needed.
    pub fn imp_deps(&self) -> (r: Vec<Bucket>)
        ensures
            seq_unique(bucket_names(r@)),
            forall|t: int| #![auto] 0 <= t < r@.len() ==> seq_unique(r@[t].syms.deep_view()),
            bmap(r@) == group_step(Map::empty(), pe_items(self.bin.imports@)),
    {
        let ghost items = pe_items(self.bin.imports@);
        let imps = &self.bin.imports;
        let mut buckets: Vec<Bucket> = Vec::new();
        let mut i: usize = 0;
        proof {
            assert(items.skip(0) =~= items);
        }
        while i < imps.len()
            invariant
                i <= imps@.len(),
                items == pe_items(imps@),
                items.len() == imps@.len(),
                seq_unique(bucket_names(buckets@)),
                forall|t: int| #![auto]
                    0 <= t < buckets@.len() ==> seq_unique(buckets@[t].syms.deep_view()),
                group_step(bmap(buckets@), items.skip(i as int)) == group_step(
                    Map::empty(),
                    items,
                ),
            decreases imps@.len() - i,
        {
            let ghost m0 = bmap(buckets@);
            proof {
                assert(items.skip(i as int)[0] == items[i as int]);
                assert(items.skip(i as int).drop_first() =~= items.skip(i + 1));
            }
            let key = lowercase(imps[i].dll.as_str());
            let sym = imps[i].name.clone();
            proof {
                assert(key@ == items[i as int].0);
                assert(sym@ == items[i as int].1);
            }
            add_one_to_bucket(&mut buckets, key, sym);
            proof {
                assert(group_step(m0, items.skip(i as int)) == group_step(
                    bmap(buckets@),
                    items.skip(i + 1),
                ));
            }
            i += 1;
        }
        proof {
            assert(items.skip(imps@.len() as int) =~= Seq::<(Seq<char>, Seq<char>)>::empty());
        }
        buckets
    }

    /// The display labels of the export directory, each once.
    pub fn exports(&self) -> (r: Vec<String>)
        ensures
            seq_unique(r.deep_view()),
            r.deep_view().to_set() == export_label_set(self.bin.exports@),
    {
        let exps = &self.bin.exports;
        let mut r: Vec<String> = Vec::new();
        let mut i: usize = 0;
        while i < exps.len()
            invariant
                i <= exps@.len(),
                seq_unique(r.deep_view()),
                forall|l: Seq<char>| #![auto]
                    r.deep_view().contains(l) <==> exists|t: int|
                        0 <= t < i && export_label(#[trigger] exps@[t]) == l,
            decreases exps@.len() - i,
        {
            let ghost pre = r.deep_view();
            let lab = label_of(&exps[i]);
            push_unique(&mut r, lab);
            proof {
                assert forall|l: Seq<char>| #![auto] r.deep_view().contains(l) <==> exists|t: int|
                    0 <= t < i + 1 && export_label(#[trigger] exps@[t]) == l by {
                    if r.deep_view().contains(l) {
                        if pre.contains(l) {
                            let t = choose|t: int|
                                0 <= t < i && export_label(#[trigger] exps@[t]) == l;
                            assert(0 <= t < i + 1 && export_label(exps@[t]) == l);
                        } else {
                            assert(export_label(exps@[i as int]) == l);
                        }
                    }
                    if exists|t: int| 0 <= t < i + 1 && export_label(#[trigger] exps@[t]) == l {
                        let t = choose|t: int|
                            0 <= t < i + 1 && export_label(#[trigger] exps@[t]) == l;
                        if t < i {
                            assert(pre.contains(l));
                        }
                        assert(r.deep_view().contains(l));
                    }
                }
            }
            i += 1;
        }
        proof {
            assert(r.deep_view().to_set() =~= export_label_set(self.bin.exports@));
        }
        r
    }
}

} // verus!
