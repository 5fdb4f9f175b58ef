//! Verified building blocks for the string work the analyzers need:
//! substring search, equality, splitting, joining, decimal rendering,
//! and vectors of strings treated as sets.

use vstd::prelude::*;

verus! {

/// `pat` occurs in `s` at position `i`.
pub open spec fn occurs_at(s: Seq<char>, pat: Seq<char>, i: int) -> bool {
    0 <= i && i + pat.len() <= s.len() && s.subrange(i, i + pat.len()) == pat
}

/// Index of the first occurrence of `pat` in `s` at or after `from`.
pub open spec fn first_occ_from(s: Seq<char>, pat: Seq<char>, from: int) -> Option<int>
    decreases s.len() + 1 - from,
{
    if from < 0 || from + pat.len() > s.len() {
        None
    } else if s.subrange(from, from + pat.len()) == pat {
        Some(from)
    } else {
        first_occ_from(s, pat, from + 1)
    }
}

/// Index of the first occurrence of `pat` in `s`.
pub open spec fn first_occ(s: Seq<char>, pat: Seq<char>) -> Option<int> {
    first_occ_from(s, pat, 0)
}

/// What `first_occ_from` returns: the leftmost occurrence at or after
/// `from`, or the absence of any.
pub proof fn lemma_first_occ_from(s: Seq<char>, pat: Seq<char>, from: int)
    requires
        0 <= from,
    ensures
        match first_occ_from(s, pat, from) {
            Some(i) => from <= i && occurs_at(s, pat, i) && (forall|j: int|
                from <= j < i ==> !occurs_at(s, pat, j)),
            None => forall|j: int| from <= j ==> !occurs_at(s, pat, j),
        },
    decreases s.len() + 1 - from,
{
    if from + pat.len() > s.len() {
        assert(forall|j: int| from <= j ==> !occurs_at(s, pat, j));
    } else if s.subrange(from, from + pat.len()) == pat {
    } else {
        lemma_first_occ_from(s, pat, from + 1);
    }
}

/// Mapping of an executable index option into the spec world.
pub open spec fn opt_int(o: Option<usize>) -> Option<int> {
    match o {
        Some(i) => Some(i as int),
        None => None,
    }
}

/// Whether `pat` occurs in `s` at position `i`, by character comparison.
pub fn matches_at(s: &str, pat: &str, i: usize) -> (r: bool)
    ensures
        r == occurs_at(s@, pat@, i as int),
{
    let n: usize = s.unicode_len();
    let m: usize = pat.unicode_len();
    if i > n || m > n - i {
        return false;
    }
    let mut k: usize = 0;
    while k < m
        invariant
            i + m <= n,
            n == s@.len(),
            m == pat@.len(),
            k <= m,
            forall|t: int| 0 <= t < k ==> s@[i + t] == pat@[t],
        decreases m - k,
    {
        if s.get_char(i + k) != pat.get_char(k) {
            proof {
                let sub = s@.subrange(i as int, i + pat@.len());
                assert(sub[k as int] == s@[i + k]);
            }
            return false;
        }
        k += 1;
    }
    proof {
        assert(s@.subrange(i as int, i + pat@.len()) =~= pat@);
    }
    true
}

/// Character-for-character equality of two string slices.
pub fn str_eq(a: &str, b: &str) -> (r: bool)
    ensures
        r == (a@ == b@),
{
    let n: usize = a.unicode_len();
    let m: usize = b.unicode_len();
    if n != m {
        return false;
    }
    let r = matches_at(a, b, 0);
    proof {
        assert(a@.subrange(0, a@.len() as int) =~= a@);
    }
    r
}

/// `pat` stands at the front of `s`.
pub fn starts_with(s: &str, pat: &str) -> (r: bool)
    ensures
        r == occurs_at(s@, pat@, 0),
{
    matches_at(s, pat, 0)
}

/// First occurrence of `pat` in `s` at or after `from`.
pub fn find_from(s: &str, pat: &str, from: usize) -> (r: Option<usize>)
    requires
        from <= s@.len(),
        pat@.len() >= 1,
    ensures
        opt_int(r) == first_occ_from(s@, pat@, from as int),
{
    let n: usize = s.unicode_len();
    let m: usize = pat.unicode_len();
    if m > n {
        return None;
    }
    let mut i: usize = from;
    while i <= n - m
        invariant
            from <= i <= n,
            1 <= m <= n,
            n == s@.len(),
            m == pat@.len(),
            first_occ_from(s@, pat@, from as int) == first_occ_from(s@, pat@, i as int),
        decreases n - i,
    {
        if matches_at(s, pat, i) {
            return Some(i);
        }
        i += 1;
    }
    None
}

/// The pieces of `s` between occurrences of the character `c`.
pub open spec fn split_char_spec(s: Seq<char>, c: char) -> Seq<Seq<char>>
    decreases s.len(),
{
    match first_occ(s, seq![c]) {
        None => seq![s],
        Some(i) => if 0 <= i && i < s.len() {
            seq![s.take(i)] + split_char_spec(s.skip(i + 1), c)
        } else {
            seq![s]
        },
    }
}

/// The pieces of `s` between colons.
pub fn split_colon(s: &str) -> (r: Vec<String>)
    ensures
        r.deep_view() == split_char_spec(s@, ':'),
    decreases s@.len(),
{
    proof {
        reveal_strlit(":");
        lemma_first_occ_from(s@, ":"@, 0);
        assert(":"@ =~= seq![':']);
    }
    let n: usize = s.unicode_len();
    match find_from(s, ":", 0) {
        None => {
            let mut v: Vec<String> = Vec::new();
            v.push(s.to_owned());
            proof {
                assert(v.deep_view() =~= split_char_spec(s@, ':'));
            }
            v
        },
        Some(i) => {
            let head = s.substring_char(0, i);
            let tail = s.substring_char(i + 1, n);
            let mut v = split_colon(tail);
            v.insert(0, head.to_owned());
            proof {
                assert(head@ =~= s@.take(i as int));
                assert(tail@ =~= s@.skip(i + 1));
                assert(v.deep_view() =~= split_char_spec(s@, ':'));
            }
            v
        },
    }
}

/// The parts laid side by side with `sep` between each two.
pub open spec fn join_spec(parts: Seq<Seq<char>>, sep: Seq<char>) -> Seq<char>
    decreases parts.len(),
{
    if parts.len() == 0 {
        Seq::empty()
    } else if parts.len() == 1 {
        parts[0]
    } else {
        join_spec(parts.drop_last(), sep) + sep + parts.last()
    }
}

/// Joins the strings with `sep` between each two.
pub fn join_strings(parts: &Vec<String>, sep: &str) -> (r: String)
    ensures
        r@ == join_spec(parts.deep_view(), sep@),
{
    let mut r = String::new();
    let mut i: usize = 0;
    while i < parts.len()
        invariant
            i <= parts.len(),
            r@ == join_spec(parts.deep_view().take(i as int), sep@),
        decreases parts.len() - i,
    {
        if i > 0 {
            r.append(sep);
        }
        r.append(parts[i].as_str());
        proof {
            let pd = parts.deep_view();
            assert(pd.take(i + 1).drop_last() =~= pd.take(i as int));
            assert(pd.take(i + 1).last() == pd[i as int]);
            if i == 0 {
                assert(join_spec(pd.take(1), sep@) == pd[0]);
                assert(Seq::<char>::empty() + pd[0] =~= pd[0]);
            }
        }
        i += 1;
    }
    proof {
        assert(parts.deep_view().take(parts.deep_view().len() as int) =~= parts.deep_view());
    }
    r
}

/// The character for one decimal digit.
pub open spec fn digit_char(d: int) -> char {
    if d == 0 {
        '0'
    } else if d == 1 {
        '1'
    } else if d == 2 {
        '2'
    } else if d == 3 {
        '3'
    } else if d == 4 {
        '4'
    } else if d == 5 {
        '5'
    } else if d == 6 {
        '6'
    } else if d == 7 {
        '7'
    } else if d == 8 {
        '8'
    } else {
        '9'
    }
}

/// The decimal digits of `n`, most significant first.
pub open spec fn dec_spec(n: int) -> Seq<char>
    decreases n,
{
    if n < 10 {
        seq![digit_char(n)]
    } else {
        dec_spec(n / 10).push(digit_char(n % 10))
    }
}

fn digit_str(d: u64) -> (r: &'static str)
    requires
        d < 10,
    ensures
        r@ == seq![digit_char(d as int)],
{
    proof {
        reveal_strlit("0");
        reveal_strlit("1");
        reveal_strlit("2");
        reveal_strlit("3");
        reveal_strlit("4");
        reveal_strlit("5");
        reveal_strlit("6");
        reveal_strlit("7");
        reveal_strlit("8");
        reveal_strlit("9");
    }
    let r: &'static str = if d == 0 {
        "0"
    } else if d == 1 {
        "1"
    } else if d == 2 {
        "2"
    } else if d == 3 {
        "3"
    } else if d == 4 {
        "4"
    } else if d == 5 {
        "5"
    } else if d == 6 {
        "6"
    } else if d == 7 {
        "7"
    } else if d == 8 {
        "8"
    } else {
        "9"
    };
    proof {
        assert(r@ =~= seq![digit_char(d as int)]);
    }
    r
}

/// Renders `n` in decimal.
pub fn u64_to_dec(n: u64) -> (r: String)
    ensures
        r@ == dec_spec(n as int),
    decreases n,
{
    if n < 10 {
        let mut r = String::new();
        r.append(digit_str(n));
        proof {
            assert(Seq::<char>::empty() + seq![digit_char(n as int)] =~= dec_spec(n as int));
        }
        r
    } else {
        let mut r = u64_to_dec(n / 10);
        r.append(digit_str(n % 10));
        proof {
            assert(dec_spec(n as int / 10) + seq![digit_char(n as int % 10)] =~= dec_spec(
                n as int,
            ));
        }
        r
    }
}

/// No string stands in the sequence twice.
pub open spec fn seq_unique(s: Seq<Seq<char>>) -> bool {
    forall|i: int, j: int| 0 <= i < j < s.len() ==> s[i] != s[j]
}

/// Whether one of the strings in `v` reads `x`.
pub fn vec_contains_str(v: &Vec<String>, x: &str) -> (r: bool)
    ensures
        r == v.deep_view().contains(x@),
{
    let mut i: usize = 0;
    while i < v.len()
        invariant
            i <= v.len(),
            forall|t: int| 0 <= t < i ==> v.deep_view()[t] != x@,
        decreases v.len() - i,
    {
        if str_eq(v[i].as_str(), x) {
            proof {
                assert(v.deep_view()[i as int] == x@);
            }
            return true;
        }
        i += 1;
    }
    proof {
        assert(!v.deep_view().contains(x@));
    }
    false
}

/// Pushing one string extends what the sequence holds by exactly it.
pub proof fn lemma_push_contains(s: Seq<Seq<char>>, x: Seq<char>, sym: Seq<char>)
    ensures
        s.push(x).contains(sym) <==> (s.contains(sym) || sym == x),
{
    if s.push(x).contains(sym) {
        let t = choose|t: int| 0 <= t < s.push(x).len() && s.push(x)[t] == sym;
        if t < s.len() {
            assert(s[t] == sym);
        }
    }
    if s.contains(sym) {
        let t = choose|t: int| 0 <= t < s.len() && s[t] == sym;
        assert(s.push(x)[t] == sym);
    }
    if sym == x {
        assert(s.push(x)[s.len() as int] == sym);
    }
}

/// Appends `x` unless it already stands in `v`.
pub fn push_unique(v: &mut Vec<String>, x: String)
    ensures
        forall|sym: Seq<char>| #![auto]
            final(v).deep_view().contains(sym) <==> (old(v).deep_view().contains(sym) || sym
                == x@),
        seq_unique(old(v).deep_view()) ==> seq_unique(final(v).deep_view()),
{
    if !vec_contains_str(v, x.as_str()) {
        let ghost pre = v.deep_view();
        v.push(x);
        proof {
            assert(v.deep_view() =~= pre.push(x@));
            assert(forall|sym: Seq<char>| #![auto]
                v.deep_view().contains(sym) <==> (pre.contains(sym) || sym == x@)) by {
                assert forall|sym: Seq<char>| #![auto] true implies (v.deep_view().contains(sym)
                    <==> (pre.contains(sym) || sym == x@)) by {
                    lemma_push_contains(pre, x@, sym);
                }
            }
            if seq_unique(pre) {
                assert(seq_unique(v.deep_view())) by {
                    assert(forall|t: int| 0 <= t < pre.len() ==> v.deep_view()[t] == pre[t]);
                    assert(v.deep_view()[pre.len() as int] == x@);
                    assert(forall|t: int| 0 <= t < pre.len() ==> pre[t] != x@);
                }
            }
        }
    }
}

/// The strings of `a` that also stand in `b`.
pub fn vec_intersect(a: &Vec<String>, b: &Vec<String>) -> (r: Vec<String>)
    requires
        seq_unique(a.deep_view()),
    ensures
        seq_unique(r.deep_view()),
        forall|sym: Seq<char>| #![auto]
            r.deep_view().contains(sym) <==> (a.deep_view().contains(sym)
                && b.deep_view().contains(sym)),
{
    let mut r: Vec<String> = Vec::new();
    let mut i: usize = 0;
    while i < a.len()
        invariant
            i <= a@.len(),
            seq_unique(a.deep_view()),
            seq_unique(r.deep_view()),
            forall|sym: Seq<char>| #![auto]
                r.deep_view().contains(sym) <==> (a.deep_view().take(i as int).contains(sym)
                    && b.deep_view().contains(sym)),
        decreases a@.len() - i,
    {
        let ghost pre = r.deep_view();
        let ghost ad = a.deep_view();
        if vec_contains_str(b, a[i].as_str()) {
            let x = a[i].clone();
            proof {
                assert(x@ == ad[i as int]);
                if pre.contains(x@) {
                    assert(ad.take(i as int).contains(x@));
                    let t = choose|t: int| 0 <= t < i && ad.take(i as int)[t] == x@;
                    assert(ad[t] == ad[i as int]);
                }
            }
            r.push(x);
            proof {
                assert(r.deep_view() =~= pre.push(ad[i as int]));
                assert(seq_unique(r.deep_view())) by {
                    assert(forall|t: int| 0 <= t < pre.len() ==> r.deep_view()[t] == pre[t]);
                    assert(!pre.contains(ad[i as int]));
                    assert(forall|t: int| 0 <= t < pre.len() ==> pre[t] != ad[i as int]);
                }
            }
        }
        proof {
            assert(ad.take(i + 1).drop_last() =~= ad.take(i as int));
            assert(ad.take(i + 1).last() == ad[i as int]);
            assert forall|sym: Seq<char>| #![auto] r.deep_view().contains(sym) <==> (ad.take(
                i + 1,
            ).contains(sym) && b.deep_view().contains(sym)) by {
                lemma_push_contains(pre, ad[i as int], sym);
                lemma_push_contains(ad.take(i as int), ad[i as int], sym);
                assert(ad.take(i + 1) =~= ad.take(i as int).push(ad[i as int]));
            }
        }
        i += 1;
    }
    proof {
        assert(a.deep_view().take(a.deep_view().len() as int) =~= a.deep_view());
    }
    r
}

/// The strings of `a` that stand nowhere in `b`.
pub fn vec_difference(a: &Vec<String>, b: &Vec<String>) -> (r: Vec<String>)
    requires
        seq_unique(a.deep_view()),
    ensures
        seq_unique(r.deep_view()),
        forall|sym: Seq<char>| #![auto]
            r.deep_view().contains(sym) <==> (a.deep_view().contains(sym)
                && !b.deep_view().contains(sym)),
{
    let mut r: Vec<String> = Vec::new();
    let mut i: usize = 0;
    while i < a.len()
        invariant
            i <= a@.len(),
            seq_unique(a.deep_view()),
            seq_unique(r.deep_view()),
            forall|sym: Seq<char>| #![auto]
                r.deep_view().contains(sym) <==> (a.deep_view().take(i as int).contains(sym)
                    && !b.deep_view().contains(sym)),
        decreases a@.len() - i,
    {
        let ghost pre = r.deep_view();
        let ghost ad = a.deep_view();
        if !vec_contains_str(b, a[i].as_str()) {
            let x = a[i].clone();
            proof {
                assert(x@ == ad[i as int]);
                if pre.contains(x@) {
                    assert(ad.take(i as int).contains(x@));
                    let t = choose|t: int| 0 <= t < i && ad.take(i as int)[t] == x@;
                    assert(ad[t] == ad[i as int]);
                }
            }
            r.push(x);
            proof {
                assert(r.deep_view() =~= pre.push(ad[i as int]));
                assert(seq_unique(r.deep_view())) by {
                    assert(forall|t: int| 0 <= t < pre.len() ==> r.deep_view()[t] == pre[t]);
                    assert(!pre.contains(ad[i as int]));
                    assert(forall|t: int| 0 <= t < pre.len() ==> pre[t] != ad[i as int]);
                }
            }
        }
        proof {
            assert(ad.take(i + 1).drop_last() =~= ad.take(i as int));
            assert(ad.take(i + 1).last() == ad[i as int]);
            assert forall|sym: Seq<char>| #![auto] r.deep_view().contains(sym) <==> (ad.take(
                i + 1,
            ).contains(sym) && !b.deep_view().contains(sym)) by {
                lemma_push_contains(pre, ad[i as int], sym);
                lemma_push_contains(ad.take(i as int), ad[i as int], sym);
                assert(ad.take(i + 1) =~= ad.take(i as int).push(ad[i as int]));
            }
        }
        i += 1;
    }
    proof {
        assert(a.deep_view().take(a.deep_view().len() as int) =~= a.deep_view());
    }
    r
}

} // verus!
