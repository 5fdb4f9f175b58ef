//! The Mach-O analyzers: one over a single decoded slice, and one over a
//! fat container read as an ordered list of slices, whose dependency,
//! import and export sets are unions across the slices and whose
//! attribution maps merge key-wise.

use vstd::prelude::*;

use crate::attr::{bmap, bucket_names, group_step, Bucket};
use crate::strutil::{dec_spec, join_spec, join_strings, push_unique, seq_unique, u64_to_dec};

verus! {

/// One decoded bind record: an imported symbol and the dylib it binds to.
pub struct MachImport {
    pub name: String,
    pub dylib: String,
}

/// A decoded Mach-O slice: what the analyzer reads of one architecture.
pub struct MachOBinary {
    /// The slice's CPU type, as the header encodes it.
    pub cputype: u32,
    /// The load-command library paths.
    pub libs: Vec<String>,
    /// The bind records, each import with its origin dylib.
    pub imports: Vec<MachImport>,
    /// The names of the export trie.
    pub exports: Vec<String>,
}

/// The one-line description of a slice: the format and its CPU type.
pub open spec fn slice_desc(b: MachOBinary) -> Seq<char> {
    "Mach-O "@ + dec_spec(b.cputype as int)
}

/// The bind records as (origin dylib, symbol) pairs, in order.
pub open spec fn mach_items(imps: Seq<MachImport>) -> Seq<(Seq<char>, Seq<char>)> {
    Seq::new(imps.len(), |i: int| (imps[i].dylib@, imps[i].name@))
}

/// The imported symbol names of a slice.
pub open spec fn mach_import_names(imps: Seq<MachImport>) -> Set<Seq<char>> {
    Set::new(
        |sym: Seq<char>| exists|i: int| 0 <= i < imps.len() && #[trigger] imps[i].name@ == sym,
    )
}

/// The Mach-O analyzer over one decoded slice.
pub struct MachOAnalyzer {
    pub bin: MachOBinary,
}

impl MachOAnalyzer {
    /// Wraps a decoded slice.
    pub fn from_bin(bin: MachOBinary) -> (r: Self)
        ensures
            r.bin == bin,
    {
        MachOAnalyzer { bin }
    }

    /// A one-line description of the slice.
    pub fn description(&self) -> (r: String)
        ensures
            r@ == slice_desc(self.bin),
    {
        let mut s = String::from_str("Mach-O ");
        let d = u64_to_dec(self.bin.cputype as u64);
        s.append(d.as_str());
        s
    }

    /// The declared dylib paths, each once.
    pub fn deps(&self) -> (r: Vec<String>)
        ensures
            seq_unique(r.deep_view()),
            r.deep_view().to_set() == self.bin.libs.deep_view().to_set(),
    {
        let mut r: Vec<String> = Vec::new();
        dedup_into(&mut r, &self.bin.libs);
        proof {
            assert(r.deep_view().to_set() =~= self.bin.libs.deep_view().to_set());
        }
        r
    }

    /// The imported symbol names, each once.
    pub fn imports(&self) -> (r: Vec<String>)
        ensures
            seq_unique(r.deep_view()),
            r.deep_view().to_set() == mach_import_names(self.bin.imports@),
    {
        let imps = &self.bin.imports;
        let mut r: Vec<String> = Vec::new();
        let mut i: usize = 0;
        while i < imps.len()
            invariant
                i <= imps@.len(),
                seq_unique(r.deep_view()),
                forall|sym: Seq<char>| #![auto]
                    r.deep_view().contains(sym) <==> exists|t: int|
                        0 <= t < i && #[trigger] imps@[t].name@ == sym,
            decreases imps@.len() - i,
        {
            let ghost pre = r.deep_view();
            push_unique(&mut r, imps[i].name.clone());
            proof {
                assert forall|sym: Seq<char>| #![auto] r.deep_view().contains(sym) <==> exists|
                    t: int,
                | 0 <= t < i + 1 && #[trigger] imps@[t].name@ == sym by {
                    if r.deep_view().contains(sym) {
                        if pre.contains(sym) {
                            let t = choose|t: int| 0 <= t < i && #[trigger] imps@[t].name@ == sym;
                            assert(0 <= t < i + 1 && imps@[t].name@ == sym);
                        } else {
                            assert(imps@[i as int].name@ == sym);
                        }
                    }
                    if exists|t: int| 0 <= t < i + 1 && #[trigger] imps@[t].name@ == sym {
                        let t = choose|t: int| 0 <= t < i + 1 && #[trigger] imps@[t].name@ == sym;
                        if t < i {
                            assert(pre.contains(sym));
                        }
                        assert(r.deep_view().contains(sym));
                    }
                }
            }
            i += 1;
        }
        proof {
            assert(r.deep_view().to_set() =~= mach_import_names(imps@));
        }
        r
    }

    /// The attribution map of one slice: each bind record's symbol goes to
    /// its own dylib's bucket; the reserved bucket is never needed.
    pub fn imp_deps(&self) -> (r: Vec<Bucket>)
        ensures
            seq_unique(bucket_names(r@)),
            forall|t: int| #![auto] 0 <= t < r@.len() ==> seq_unique(r@[t].syms.deep_view()),
            bmap(r@) == group_step(Map::empty(), mach_items(self.bin.imports@)),
    {
        let mut buckets: Vec<Bucket> = Vec::new();
        group_into(&mut buckets, &self.bin.imports);
        proof {
            assert(bmap(buckets@) == group_step(Map::empty(), mach_items(self.bin.imports@)));
        }
        buckets
    }

    /// The exported symbol names, each once.
    pub fn exports(&self) -> (r: Vec<String>)
        ensures
            seq_unique(r.deep_view()),
            r.deep_view().to_set() == self.bin.exports.deep_view().to_set(),
    {
        let mut r: Vec<String> = Vec::new();
        dedup_into(&mut r, &self.bin.exports);
        proof {
            assert(r.deep_view().to_set() =~= self.bin.exports.deep_view().to_set());
        }
        r
    }
}

/// Joins the strings of `v` into `acc`, each once.
fn dedup_into(acc: &mut Vec<String>, v: &Vec<String>)
    requires
        seq_unique(old(acc).deep_view()),
    ensures
        seq_unique(final(acc).deep_view()),
        forall|sym: Seq<char>|
            #![trigger final(acc).deep_view().contains(sym)]
            #![trigger v.deep_view().contains(sym)]
            final(acc).deep_view().contains(sym) <==> (old(acc).deep_view().contains(sym)
                || v.deep_view().contains(sym)),
{
    let ghost base = acc.deep_view();
    let mut i: usize = 0;
    while i < v.len()
        invariant
            i <= v@.len(),
            seq_unique(acc.deep_view()),
            forall|sym: Seq<char>|
                #![trigger acc.deep_view().contains(sym)]
                #![trigger v.deep_view().take(i as int).contains(sym)]
                acc.deep_view().contains(sym) <==> (base.contains(sym) || v.deep_view().take(
                    i as int,
                ).contains(sym)),
        decreases v@.len() - i,
    {
        let ghost vd = v.deep_view();
        let ghost accpre = acc.deep_view();
        push_unique(acc, v[i].clone());
        proof {
            assert(vd.take(i + 1) =~= vd.take(i as int).push(vd[i as int]));
            assert forall|sym: Seq<char>| #![auto] acc.deep_view().contains(sym) <==> (
            base.contains(sym) || vd.take(i + 1).contains(sym)) by {
                crate::strutil::lemma_push_contains(vd.take(i as int), vd[i as int], sym);
                assert(vd.take(i + 1).contains(sym) == (vd.take(i as int).contains(sym) || sym
                    == vd[i as int]));
                assert(acc.deep_view().contains(sym) <==> (accpre.contains(sym) || sym == vd[
                    i as int
                ]));
                assert(accpre.contains(sym) <==> (base.contains(sym) || vd.take(
                    i as int,
                ).contains(sym)));
            }
        }
        i += 1;
    }
    proof {
        assert(v.deep_view().take(v.deep_view().len() as int) =~= v.deep_view());
    }
}

/// Groups each bind record of `imps` into its dylib's bucket of `acc`.
fn group_into(buckets: &mut Vec<Bucket>, imps: &Vec<MachImport>)
    requires
        seq_unique(bucket_names(old(buckets)@)),
        forall|t: int| #![auto]
            0 <= t < old(buckets)@.len() ==> seq_unique(old(buckets)@[t].syms.deep_view()),
    ensures
        seq_unique(bucket_names(final(buckets)@)),
        forall|t: int| #![auto]
            0 <= t < final(buckets)@.len() ==> seq_unique(final(buckets)@[t].syms.deep_view()),
        group_step(bmap(old(buckets)@), mach_items(imps@)) == bmap(final(buckets)@),
{
    let ghost items = mach_items(imps@);
    let mut i: usize = 0;
    proof {
        assert(items.skip(0) =~= items);
    }
    while i < imps.len()
        invariant
            i <= imps@.len(),
            items == mach_items(imps@),
            items.len() == imps@.len(),
            seq_unique(bucket_names(buckets@)),
            forall|t: int| #![auto]
                0 <= t < buckets@.len() ==> seq_unique(buckets@[t].syms.deep_view()),
            group_step(bmap(buckets@), items.skip(i as int)) == group_step(
                bmap(old(buckets)@),
                items,
            ),
        decreases imps@.len() - i,
    {
        let ghost m0 = bmap(buckets@);
        proof {
            assert(items.skip(i as int)[0] == items[i as int]);
            assert(items.skip(i as int).drop_first() =~= items.skip(i + 1));
        }
        let key = imps[i].dylib.clone();
        let sym = imps[i].name.clone();
        proof {
            assert(key@ == items[i as int].0);
            assert(sym@ == items[i as int].1);
        }
        crate::pe::add_one_to_bucket(buckets, key, sym);
        proof {
            assert(group_step(m0, items.skip(i as int)) == group_step(
                bmap(buckets@),
                items.skip(i + 1),
            ));
        }
        i += 1;
    }
    proof {
        assert(items.skip(imps@.len() as int) =~= Seq::<(Seq<char>, Seq<char>)>::empty());
    }
}

/// The slices a fat analyzer holds, as decoded images.
pub open spec fn slices(a: Seq<MachOAnalyzer>) -> Seq<MachOBinary> {
    a.map_values(|x: MachOAnalyzer| x.bin)
}

/// The bind records of the slices from index `s` on, laid end to end.
pub open spec fn items_from(bins: Seq<MachOBinary>, s: int) -> Seq<(Seq<char>, Seq<char>)>
    decreases bins.len() - s,
{
    if s < 0 || s >= bins.len() {
        Seq::empty()
    } else {
        mach_items(bins[s].imports@) + items_from(bins, s + 1)
    }
}

/// The descriptions of the slices, in order.
pub open spec fn slice_descs(bins: Seq<MachOBinary>) -> Seq<Seq<char>> {
    bins.map_values(|b: MachOBinary| slice_desc(b))
}

/// The one-line description of a container: each slice's description
/// joined with "; ", and a "Fat: " prefix when more than one slice is
/// present.
pub open spec fn fat_desc(bins: Seq<MachOBinary>) -> Seq<char> {
    if bins.len() <= 1 {
        join_spec(slice_descs(bins), "; "@)
    } else {
        "Fat: "@ + join_spec(slice_descs(bins), "; "@)
    }
}

/// The Mach analyzer over a container: an ordered list of slice
/// analyzers, one per slice that could be decoded.
pub struct MachAnalyzer {
    pub bins: Vec<MachOAnalyzer>,
}

impl MachAnalyzer {
    /// Wraps the decoded slices of a container, in order.
    pub fn from_bin(bins: Vec<MachOBinary>) -> (r: Self)
        ensures
            slices(r.bins@) == bins@,
    {
        let mut v: Vec<MachOAnalyzer> = Vec::new();
        let mut i: usize = 0;
        let ghost b0 = bins@;
        let mut rest = bins;
        let n: usize = rest.len();
        while i < n
            invariant
                i <= n,
                n == b0.len(),
                rest@ == b0.skip(i as int),
                v@.len() == i,
                forall|t: int| 0 <= t < i ==> #[trigger] v@[t].bin == b0[t],
            decreases n - i,
        {
            let b = rest.remove(0);
            proof {
                assert(b == b0[i as int]);
                assert(rest@ =~= b0.skip(i + 1));
            }
            v.push(MachOAnalyzer::from_bin(b));
            i += 1;
        }
        proof {
            assert(slices(v@) =~= b0);
        }
        MachAnalyzer { bins: v }
    }

    /// A one-line description of the container and its slices.
    pub fn description(&self) -> (r: String)
        ensures
            r@ == fat_desc(slices(self.bins@)),
    {
        let mut parts: Vec<String> = Vec::new();
        let mut i: usize = 0;
        while i < self.bins.len()
            invariant
                i <= self.bins@.len(),
                parts.deep_view() =~= slice_descs(slices(self.bins@)).take(i as int),
            decreases self.bins@.len() - i,
        {
            let ghost pre = parts.deep_view();
            let d = self.bins[i].description();
            parts.push(d);
            proof {
                assert(parts.deep_view() =~= pre.push(slice_desc(self.bins@[i as int].bin)));
                assert(parts.deep_view() =~= slice_descs(slices(self.bins@)).take(i + 1));
            }
            i += 1;
        }
        proof {
            assert(slice_descs(slices(self.bins@)).take(self.bins@.len() as int) =~= slice_descs(
                slices(self.bins@),
            ));
        }
        let joined = join_strings(&parts, "; ");
        if self.bins.len() <= 1 {
            joined
        } else {
            let mut s = String::from_str("Fat: ");
            s.append(joined.as_str());
            s
        }
    }

    /// The declared dylib paths across the slices, each once.
    pub fn deps(&self) -> (r: Vec<String>)
        ensures
            seq_unique(r.deep_view()),
            forall|sym: Seq<char>| #![auto]
                r.deep_view().to_set().contains(sym) <==> exists|t: int|
                    0 <= t < self.bins@.len() && #[trigger] self.bins@[t].bin.libs.deep_view()
                        .contains(sym),
    {
        let mut r: Vec<String> = Vec::new();
        let mut i: usize = 0;
        while i < self.bins.len()
            invariant
                i <= self.bins@.len(),
                seq_unique(r.deep_view()),
                forall|sym: Seq<char>| #![auto]
                    r.deep_view().contains(sym) <==> exists|t: int|
                        0 <= t < i && #[trigger] self.bins@[t].bin.libs.deep_view().contains(sym),
            decreases self.bins@.len() - i,
        {
            let ghost pre = r.deep_view();
            let part = &self.bins[i].bin.libs;
            dedup_into(&mut r, part);
            proof {
                assert(part.deep_view() == self.bins@[i as int].bin.libs.deep_view());
                assert forall|sym: Seq<char>| #![auto] r.deep_view().contains(sym) <==> exists|
                    t: int,
                |
                    0 <= t < i + 1 && #[trigger] self.bins@[t].bin.libs.deep_view().contains(
                        sym,
                    ) by {
                    if r.deep_view().contains(sym) {
                        if pre.contains(sym) {
                            let t = choose|t: int|
                                0 <= t < i && #[trigger] self.bins@[t].bin.libs.deep_view()
                                    .contains(sym);
                            assert(0 <= t < i + 1 && self.bins@[t].bin.libs.deep_view().contains(
                                sym,
                            ));
                        } else {
                            assert(self.bins@[i as int].bin.libs.deep_view().contains(sym));
                        }
                    }
                    if exists|t: int|
                        0 <= t < i + 1 && #[trigger] self.bins@[t].bin.libs.deep_view().contains(
                            sym,
                        ) {
                        let t = choose|t: int|
                            0 <= t < i + 1 && #[trigger] self.bins@[t].bin.libs.deep_view()
                                .contains(sym);
                        if t < i {
                            assert(pre.contains(sym));
                        } else {
                            assert(self.bins@[i as int].bin.libs.deep_view().contains(sym));
                        }
                        assert(r.deep_view().contains(sym));
                    }
                }
            }
            i += 1;
        }
        r
    }

    /// The imported symbol names across the slices, each once.
    pub fn imports(&self) -> (r: Vec<String>)
        ensures
            seq_unique(r.deep_view()),
            forall|sym: Seq<char>| #![auto]
                r.deep_view().to_set().contains(sym) <==> exists|t: int|
                    0 <= t < self.bins@.len() && mach_import_names(
                        #[trigger] self.bins@[t].bin.imports@,
                    ).contains(sym),
    {
        let mut r: Vec<String> = Vec::new();
        let mut i: usize = 0;
        while i < self.bins.len()
            invariant
                i <= self.bins@.len(),
                seq_unique(r.deep_view()),
                forall|sym: Seq<char>| #![auto]
                    r.deep_view().contains(sym) <==> exists|t: int|
                        0 <= t < i && mach_import_names(
                            #[trigger] self.bins@[t].bin.imports@,
                        ).contains(sym),
            decreases self.bins@.len() - i,
        {
            let ghost pre = r.deep_view();
            let part = self.bins[i].imports();
            dedup_into(&mut r, &part);
            proof {
                assert forall|sym: Seq<char>| #![auto] r.deep_view().contains(sym) <==> exists|
                    t: int,
                |
                    0 <= t < i + 1 && mach_import_names(
                        #[trigger] self.bins@[t].bin.imports@,
                    ).contains(sym) by {
                    if r.deep_view().contains(sym) {
                        if pre.contains(sym) {
                            let t = choose|t: int|
                                0 <= t < i && mach_import_names(
                                    #[trigger] self.bins@[t].bin.imports@,
                                ).contains(sym);
                            assert(0 <= t < i + 1 && mach_import_names(
                                self.bins@[t].bin.imports@,
                            ).contains(sym));
                        } else {
                            assert(part.deep_view().contains(sym));
                            assert(mach_import_names(self.bins@[i as int].bin.imports@).contains(
                                sym,
                            ));
                        }
                    }
                    if exists|t: int|
                        0 <= t < i + 1 && mach_import_names(
                            #[trigger] self.bins@[t].bin.imports@,
                        ).contains(sym) {
                        let t = choose|t: int|
                            0 <= t < i + 1 && mach_import_names(
                                #[trigger] self.bins@[t].bin.imports@,
                            ).contains(sym);
                        if t < i {
                            assert(pre.contains(sym));
                        } else {
                            assert(part.deep_view().contains(sym));
                        }
                        assert(r.deep_view().contains(sym));
                    }
                }
            }
            i += 1;
        }
        r
    }

    /// The attribution map of the container: the slices' maps merged
    /// key-wise, a dylib named in several slices accumulating one bucket.
    pub fn imp_deps(&self) -> (r: Vec<Bucket>)
        ensures
            seq_unique(bucket_names(r@)),
            forall|t: int| #![auto] 0 <= t < r@.len() ==> seq_unique(r@[t].syms.deep_view()),
            bmap(r@) == group_step(Map::empty(), items_from(slices(self.bins@), 0)),
    {
        let mut buckets: Vec<Bucket> = Vec::new();
        let mut i: usize = 0;
        while i < self.bins.len()
            invariant
                i <= self.bins@.len(),
                seq_unique(bucket_names(buckets@)),
                forall|t: int| #![auto]
                    0 <= t < buckets@.len() ==> seq_unique(buckets@[t].syms.deep_view()),
                group_step(bmap(buckets@), items_from(slices(self.bins@), i as int))
                    == group_step(Map::empty(), items_from(slices(self.bins@), 0)),
            decreases self.bins@.len() - i,
        {
            let ghost m0 = bmap(buckets@);
            let ghost sl = slices(self.bins@);
            group_into(&mut buckets, &self.bins[i].bin.imports);
            proof {
                assert(sl[i as int] == self.bins@[i as int].bin);
                lemma_group_step_concat(
                    m0,
                    mach_items(sl[i as int].imports@),
                    items_from(sl, i + 1),
                );
                assert(items_from(sl, i as int) == mach_items(sl[i as int].imports@) + items_from(
                    sl,
                    i + 1,
                ));
            }
            i += 1;
        }
        proof {
            assert(items_from(slices(self.bins@), self.bins@.len() as int) =~= Seq::<
                (Seq<char>, Seq<char>),
            >::empty());
        }
        buckets
    }

    /// The exported symbol names across the slices, each once.
    pub fn exports(&self) -> (r: Vec<String>)
        ensures
            seq_unique(r.deep_view()),
            forall|sym: Seq<char>| #![auto]
                r.deep_view().to_set().contains(sym) <==> exists|t: int|
                    0 <= t < self.bins@.len() && #[trigger] self.bins@[t].bin.exports.deep_view()
                        .contains(sym),
    {
        let mut r: Vec<String> = Vec::new();
        let mut i: usize = 0;
        while i < self.bins.len()
            invariant
                i <= self.bins@.len(),
                seq_unique(r.deep_view()),
                forall|sym: Seq<char>| #![auto]
                    r.deep_view().contains(sym) <==> exists|t: int|
                        0 <= t < i && #[trigger] self.bins@[t].bin.exports.deep_view().contains(
                            sym,
                        ),
            decreases self.bins@.len() - i,
        {
            let ghost pre = r.deep_view();
            let part = &self.bins[i].bin.exports;
            dedup_into(&mut r, part);
            proof {
                assert(part.deep_view() == self.bins@[i as int].bin.exports.deep_view());
                assert forall|sym: Seq<char>| #![auto] r.deep_view().contains(sym) <==> exists|
                    t: int,
                |
                    0 <= t < i + 1 && #[trigger] self.bins@[t].bin.exports.deep_view().contains(
                        sym,
                    ) by {
                    if r.deep_view().contains(sym) {
                        if pre.contains(sym) {
                            let t = choose|t: int|
                                0 <= t < i && #[trigger] self.bins@[t].bin.exports.deep_view()
                                    .contains(sym);
                            assert(0 <= t < i + 1 && self.bins@[t].bin.exports.deep_view()
                                .contains(sym));
                        } else {
                            assert(self.bins@[i as int].bin.exports.deep_view().contains(sym));
                        }
                    }
                    if exists|t: int|
                        0 <= t < i + 1 && #[trigger] self.bins@[t].bin.exports.deep_view()
                            .contains(sym) {
                        let t = choose|t: int|
                            0 <= t < i + 1 && #[trigger] self.bins@[t].bin.exports.deep_view()
                                .contains(sym);
                        if t < i {
                            assert(pre.contains(sym));
                        } else {
                            assert(self.bins@[i as int].bin.exports.deep_view().contains(sym));
                        }
                        assert(r.deep_view().contains(sym));
                    }
                }
            }
            i += 1;
        }
        r
    }
}

/// Grouping a concatenation is grouping the first part, then the second.
pub proof fn lemma_group_step_concat(
    acc: Map<Seq<char>, Set<Seq<char>>>,
    a: Seq<(Seq<char>, Seq<char>)>,
    b: Seq<(Seq<char>, Seq<char>)>,
)
    ensures
        group_step(acc, a + b) == group_step(group_step(acc, a), b),
    decreases a.len(),
{
    if a.len() == 0 {
        assert(a + b =~= b);
    } else {
        let it = a[0];
        let prev = if acc.dom().contains(it.0) {
            acc[it.0]
        } else {
            Set::empty()
        };
        let acc2 = acc.insert(it.0, prev.insert(it.1));
        assert((a + b)[0] == it);
        assert((a + b).drop_first() =~= a.drop_first() + b);
        lemma_group_step_concat(acc2, a.drop_first(), b);
    }
}

} // verus!
