//! The naming rules of LoRA merging: which tensors are adapter tensors, how
//! adapter pairs are found for a base weight, which adapter tensors were left
//! unused, and the integer side of re-encoding merged values.

use vstd::prelude::*;

use vstd::arithmetic::div_mod::{lemma_div_is_ordered, lemma_div_is_ordered_by_denominator};
use vstd::arithmetic::power2::{lemma2_to64, lemma_pow2_adds, lemma_pow2_pos, lemma_pow2_strictly_increases, pow2};
use vstd::bits::{lemma_u32_pow2_no_overflow, lemma_u32_shl_is_mul, lemma_u32_shr_is_div};

use crate::safetensors::{Dtype, SafetensorsError};
use crate::template_scan::{find_seq, range_is};
use crate::text::{chars_of, push_decimal, push_str, string_from_chars};

verus! {

/// Errors of a LoRA merge.
#[derive(Debug)]
pub enum MergeError {
    /// An error from reading or writing safetensors data.
    Safetensors(SafetensorsError),
    /// A tensor had a shape the merge cannot use.
    Shape(String),
    /// A tensor that the merge needs is missing.
    MissingTensor(String),
    /// Only one half of an adapter pair is present.
    PartialAdapterPair { module: String, found: String, missing: String },
    /// Adapter tensors that no base weight used, sorted.
    UnusedAdapterTensors(Vec<String>),
}

/// `t` occurs somewhere in `s`.
pub open spec fn has_sub(s: Seq<char>, t: Seq<char>) -> bool {
    find_seq(s, t, 0) is Some
}

/// `s` ends with `t`.
pub open spec fn ends_with(s: Seq<char>, t: Seq<char>) -> bool {
    t.len() <= s.len() && s.subrange(s.len() - t.len(), s.len() as int) == t
}

/// `s` starts with `t`.
pub open spec fn starts_with(s: Seq<char>, t: Seq<char>) -> bool {
    t.len() <= s.len() && s.subrange(0, t.len() as int) == t
}

/// The name of an adapter tensor: an A/B/down/up matrix or an alpha scale.
pub open spec fn adapter_name(s: Seq<char>) -> bool {
    has_sub(s, ".lora_A"@) || has_sub(s, ".lora_B"@) || has_sub(s, ".lora_down"@) || has_sub(s, ".lora_up"@)
        || ends_with(s, ".alpha"@) || ends_with(s, ".lora_alpha"@)
}

/// Whether `lit` occurs in `s`.
fn contains_lit(s: &[char], lit: &str) -> (b: bool)
    ensures
        b == has_sub(s@, lit@),
{
    let l = chars_of(lit);
    let mut k: usize = 0;
    while k < s.len()
        invariant
            k <= s.len(),
            l@ == lit@,
            find_seq(s@, lit@, 0) == find_seq(s@, lit@, k as int),
        decreases s.len() - k,
    {
        if l.len() > s.len() - k {
            return false;
        }
        if range_is(s, k, k + l.len(), lit) {
            return true;
        }
        k = k + 1;
    }
    false
}

/// Whether `s` ends with `lit`.
fn ends_with_lit(s: &[char], lit: &str) -> (b: bool)
    ensures
        b == ends_with(s@, lit@),
{
    let n = chars_of(lit).len();
    if n > s.len() {
        return false;
    }
    range_is(s, s.len() - n, s.len(), lit)
}

/// Whether `name` is the name of a LoRA adapter tensor.
pub fn is_adapter_tensor(name: &str) -> (b: bool)
    ensures
        b == adapter_name(name@),
{
    let s = chars_of(name);
    contains_lit(&s, ".lora_A") || contains_lit(&s, ".lora_B") || contains_lit(&s, ".lora_down")
        || contains_lit(&s, ".lora_up") || ends_with_lit(&s, ".alpha") || ends_with_lit(&s, ".lora_alpha")
}

/// The module a weight belongs to: the name without a trailing `.weight`.
pub open spec fn stem_of(name: Seq<char>) -> Seq<char> {
    if ends_with(name, ".weight"@) {
        name.take(name.len() - ".weight"@.len())
    } else {
        name
    }
}

/// The module that the weight `name` belongs to.
pub fn weight_stem(name: &str) -> (s: String)
    ensures
        s@ == stem_of(name@),
{
    let cs = chars_of(name);
    if ends_with_lit(&cs, ".weight") {
        let n = chars_of(".weight").len();
        string_from_chars(&cs.as_slice()[0..cs.len() - n])
    } else {
        string_from_chars(cs.as_slice())
    }
}

/// The texts of a list of names.
pub open spec fn name_views(ns: Seq<&str>) -> Seq<Seq<char>> {
    ns.map_values(|s: &str| s@)
}

/// A half-present pair: `(module, found, missing)`.
pub type Partial = (Seq<char>, Seq<char>, Seq<char>);

/// The pair `stem + a_suf` / `stem + b_suf`: both present, neither, or only
/// one of them.
pub open spec fn fixed_pair(names: Seq<Seq<char>>, stem: Seq<char>, a_suf: Seq<char>, b_suf: Seq<char>) -> Result<Option<(Seq<char>, Seq<char>)>, Partial> {
    let a = stem + a_suf;
    let b = stem + b_suf;
    if names.contains(a) && names.contains(b) {
        Ok(Some((a, b)))
    } else if names.contains(a) {
        Err((stem, a, b))
    } else if names.contains(b) {
        Err((stem, b, a))
    } else {
        Ok(None)
    }
}

/// `n` is a named adapter's A matrix for `stem`: `stem.lora_A.<name>.weight`
/// with a non-empty `<name>`.
pub open spec fn named_a(n: Seq<char>, stem: Seq<char>) -> bool {
    let p = stem + ".lora_A."@;
    starts_with(n, p) && ends_with(n, ".weight"@) && n.len() > p.len() + ".weight"@.len()
}

/// The B matrix that goes with the named A matrix `n`.
pub open spec fn named_b(n: Seq<char>, stem: Seq<char>) -> Seq<char> {
    let p = stem + ".lora_A."@;
    stem + ".lora_B."@ + n.subrange(p.len() as int, n.len() - ".weight"@.len()) + ".weight"@
}

/// The named adapter pairs among `names[i..]`, after the pairs in `acc`;
/// stops at the first A matrix whose B matrix is missing.
pub open spec fn named_scan(names: Seq<Seq<char>>, stem: Seq<char>, i: int, acc: Seq<(Seq<char>, Seq<char>)>) -> (Seq<(Seq<char>, Seq<char>)>, Option<Partial>)
    decreases names.len() - i,
{
    if i < 0 || i >= names.len() {
        (acc, None)
    } else if named_a(names[i], stem) {
        let b = named_b(names[i], stem);
        if names.contains(b) {
            named_scan(names, stem, i + 1, acc.push((names[i], b)))
        } else {
            (acc, Some((stem, names[i], b)))
        }
    } else {
        named_scan(names, stem, i + 1, acc)
    }
}

/// The adapter pairs for the module `stem` among `names`, in the order they
/// are merged (PEFT, then Kohya, then named PEFT adapters), and the half
/// pair that ends the search, if any: the pairs are only those met before
/// that half pair.
pub open spec fn pair_plan(names: Seq<Seq<char>>, stem: Seq<char>) -> (Seq<(Seq<char>, Seq<char>)>, Option<Partial>) {
    match fixed_pair(names, stem, ".lora_A.weight"@, ".lora_B.weight"@) {
        Err(p) => (Seq::empty(), Some(p)),
        Ok(o1) => {
            let acc1 = match o1 {
                Some(pr) => seq![pr],
                None => Seq::empty(),
            };
            match fixed_pair(names, stem, ".lora_down.weight"@, ".lora_up.weight"@) {
                Err(p) => (acc1, Some(p)),
                Ok(o2) => {
                    let acc2 = match o2 {
                        Some(pr) => acc1.push(pr),
                        None => acc1,
                    };
                    named_scan(names, stem, 0, acc2)
                },
            }
        },
    }
}

pub open spec fn pairs_model(v: Seq<(String, String)>) -> Seq<(Seq<char>, Seq<char>)> {
    v.map_values(|p: (String, String)| (p.0@, p.1@))
}

/// `a` followed by `b`.
fn joined(a: &str, b: &str) -> (s: String)
    ensures
        s@ == a@ + b@,
{
    let mut s = String::new();
    push_str(&mut s, a);
    push_str(&mut s, b);
    proof {
        assert(Seq::<char>::empty() + a@ + b@ =~= a@ + b@);
    }
    s
}

/// Whether `x` is one of `names`.
fn has_name(names: &Vec<&str>, x: &String) -> (b: bool)
    ensures
        b == name_views(names@).contains(x@),
{
    let mut k: usize = 0;
    while k < names.len()
        invariant
            k <= names.len(),
            forall|j: int| 0 <= j < k ==> names@[j]@ != x@,
        decreases names.len() - k,
    {
        if names[k].to_owned() == *x {
            proof {
                assert(name_views(names@)[k as int] == x@);
            }
            return true;
        }
        k = k + 1;
    }
    proof {
        if name_views(names@).contains(x@) {
            let j = choose|j: int| 0 <= j < name_views(names@).len() && name_views(names@)[j] == x@;
            assert(names@[j]@ == x@);
        }
    }
    false
}

fn check_fixed(names: &Vec<&str>, stem: &str, a_suf: &str, b_suf: &str) -> (r: Result<Option<(String, String)>, MergeError>)
    ensures
        r is Ok <==> fixed_pair(name_views(names@), stem@, a_suf@, b_suf@) is Ok,
        r matches Ok(o) ==> fixed_pair(name_views(names@), stem@, a_suf@, b_suf@) == Ok::<_, Partial>(
            match o {
                Some(p) => Some((p.0@, p.1@)),
                None => None,
            },
        ),
        r matches Err(e) ==> e matches MergeError::PartialAdapterPair { module, found, missing }
            && fixed_pair(name_views(names@), stem@, a_suf@, b_suf@) == Err::<Option<(Seq<char>, Seq<char>)>, Partial>(
            (module@, found@, missing@),
        ),
{
    let a = joined(stem, a_suf);
    let b = joined(stem, b_suf);
    let has_a = has_name(names, &a);
    let has_b = has_name(names, &b);
    if has_a && has_b {
        Ok(Some((a, b)))
    } else if has_a {
        Err(MergeError::PartialAdapterPair { module: stem.to_owned(), found: a, missing: b })
    } else if has_b {
        Err(MergeError::PartialAdapterPair { module: stem.to_owned(), found: b, missing: a })
    } else {
        Ok(None)
    }
}

/// Whether `n` names a PEFT named adapter's A matrix for `stem`, and if so
/// the name of its B matrix.
fn named_pair_of(n: &str, stem: &str) -> (r: Option<String>)
    ensures
        r is Some <==> named_a(n@, stem@),
        r matches Some(b) ==> b@ == named_b(n@, stem@),
{
    let prefix = joined(stem, ".lora_A.");
    let p = chars_of(prefix.as_str());
    let cs = chars_of(n);
    let w = chars_of(".weight").len();
    if p.len() > cs.len() || !range_is(&cs, 0, p.len(), prefix.as_str()) {
        return None;
    }
    if !ends_with_lit(&cs, ".weight") {
        return None;
    }
    if cs.len() - p.len() <= w {
        return None;
    }
    let inner = string_from_chars(&cs.as_slice()[p.len()..cs.len() - w]);
    let mut b = joined(stem, ".lora_B.");
    push_str(&mut b, inner.as_str());
    push_str(&mut b, ".weight");
    Some(b)
}

/// The adapter pairs to merge into the module `stem`, given the tensor
/// names of one adapter file, and the half pair that ends the search.
pub fn adapter_pairs(names: &Vec<&str>, stem: &str) -> (r: (Vec<(String, String)>, Option<MergeError>))
    ensures
        pairs_model(r.0@) == pair_plan(name_views(names@), stem@).0,
        r.1 is Some <==> pair_plan(name_views(names@), stem@).1 is Some,
        r.1 matches Some(e) ==> e matches MergeError::PartialAdapterPair { module, found, missing }
            && pair_plan(name_views(names@), stem@).1 == Some::<Partial>((module@, found@, missing@)),
{
    let ghost ns = name_views(names@);
    let mut pairs: Vec<(String, String)> = Vec::new();
    match check_fixed(names, stem, ".lora_A.weight", ".lora_B.weight") {
        Err(e) => {
            proof {
                assert(pairs_model(pairs@) =~= Seq::<(Seq<char>, Seq<char>)>::empty());
            }
            return (pairs, Some(e));
        },
        Ok(Some(p)) => {
            pairs.push(p);
        },
        Ok(None) => {},
    }
    proof {
        let acc1 = match fixed_pair(ns, stem@, ".lora_A.weight"@, ".lora_B.weight"@) {
            Ok(Some(pr)) => seq![pr],
            _ => Seq::empty(),
        };
        assert(pairs_model(pairs@) =~= acc1);
    }
    match check_fixed(names, stem, ".lora_down.weight", ".lora_up.weight") {
        Err(e) => {
            return (pairs, Some(e));
        },
        Ok(Some(p)) => {
            let ghost before = pairs@;
            pairs.push(p);
            proof {
                assert(pairs_model(pairs@) =~= pairs_model(before).push((p.0@, p.1@)));
            }
        },
        Ok(None) => {},
    }
    let mut i: usize = 0;
    while i < names.len()
        invariant
            i <= names.len(),
            ns == name_views(names@),
            pair_plan(ns, stem@) == named_scan(ns, stem@, i as int, pairs_model(pairs@)),
        decreases names.len() - i,
    {
        match named_pair_of(names[i], stem) {
            Some(b) => {
                assert(ns[i as int] == names@[i as int]@);
                if !has_name(names, &b) {
                    let found = names[i].to_owned();
                    return (pairs, Some(MergeError::PartialAdapterPair { module: stem.to_owned(), found, missing: b }));
                }
                let ghost before = pairs@;
                let a = names[i].to_owned();
                let ghost pa = (a@, b@);
                pairs.push((a, b));
                proof {
                    assert(pairs_model(pairs@) =~= pairs_model(before).push(pa));
                }
            },
            None => {
                assert(ns[i as int] == names@[i as int]@);
            },
        }
        i = i + 1;
    }
    (pairs, None)
}

/// Lexicographic order of texts by code point (the order of their UTF-8
/// bytes).
pub open spec fn lex_le(a: Seq<char>, b: Seq<char>) -> bool
    decreases a.len(),
{
    if a.len() == 0 {
        true
    } else if b.len() == 0 {
        false
    } else if (a[0] as u32) != (b[0] as u32) {
        (a[0] as u32) < (b[0] as u32)
    } else {
        lex_le(a.drop_first(), b.drop_first())
    }
}

pub proof fn lemma_lex_total(a: Seq<char>, b: Seq<char>)
    ensures
        lex_le(a, b) || lex_le(b, a),
    decreases a.len(),
{
    if a.len() > 0 && b.len() > 0 && (a[0] as u32) == (b[0] as u32) {
        lemma_lex_total(a.drop_first(), b.drop_first());
    }
}

pub proof fn lemma_lex_refl(a: Seq<char>)
    ensures
        lex_le(a, a),
    decreases a.len(),
{
    if a.len() > 0 {
        lemma_lex_refl(a.drop_first());
    }
}

pub proof fn lemma_lex_trans(a: Seq<char>, b: Seq<char>, c: Seq<char>)
    requires
        lex_le(a, b),
        lex_le(b, c),
    ensures
        lex_le(a, c),
    decreases a.len(),
{
    if a.len() > 0 && b.len() > 0 && c.len() > 0 && (a[0] as u32) == (b[0] as u32) && (b[0] as u32) == (c[0] as u32) {
        lemma_lex_trans(a.drop_first(), b.drop_first(), c.drop_first());
    }
}

/// `a <= b` in code-point order.
fn text_le(a: &str, b: &str) -> (r: bool)
    ensures
        r == lex_le(a@, b@),
{
    let x = chars_of(a);
    let y = chars_of(b);
    let mut i: usize = 0;
    proof {
        assert(a@.skip(0) =~= a@);
        assert(b@.skip(0) =~= b@);
    }
    while i < x.len()
        invariant
            i <= x.len(),
            x@ == a@,
            y@ == b@,
            i <= y.len(),
            lex_le(a@, b@) == lex_le(a@.skip(i as int), b@.skip(i as int)),
        decreases x.len() - i,
    {
        if i >= y.len() {
            return false;
        }
        if (x[i] as u32) != (y[i] as u32) {
            return (x[i] as u32) < (y[i] as u32);
        }
        proof {
            assert(a@.skip(i as int).drop_first() =~= a@.skip(i + 1));
            assert(b@.skip(i as int).drop_first() =~= b@.skip(i + 1));
        }
        i = i + 1;
        if i > y.len() {
            return false;
        }
    }
    true
}

/// The texts of a list of strings.
pub open spec fn texts(v: Seq<String>) -> Seq<Seq<char>> {
    v.map_values(|s: String| s@)
}

/// `s` is in code-point order.
pub open spec fn lex_sorted(s: Seq<Seq<char>>) -> bool {
    forall|i: int, j: int| 0 <= i < j < s.len() ==> lex_le(#[trigger] s[i], #[trigger] s[j])
}

/// The strings of `v`, sorted in code-point order.
pub fn sort_texts(v: Vec<String>) -> (out: Vec<String>)
    ensures
        texts(out@).to_multiset() == texts(v@).to_multiset(),
        lex_sorted(texts(out@)),
{
    broadcast use vstd::seq_lib::group_to_multiset_ensures;
    let ghost orig = texts(v@);
    let mut work = v;
    let mut out: Vec<String> = Vec::new();
    proof {
        assert(texts(out@) =~= Seq::<Seq<char>>::empty());
        assert(texts(out@).to_multiset() =~= vstd::multiset::Multiset::empty());
    }
    while work.len() > 0
        invariant
            texts(out@).to_multiset().add(texts(work@).to_multiset()) == orig.to_multiset(),
            lex_sorted(texts(out@)),
            forall|i: int, j: int| 0 <= i < out@.len() && 0 <= j < work@.len() ==> lex_le(
                #[trigger] texts(out@)[i],
                #[trigger] texts(work@)[j],
            ),
        decreases work.len(),
    {
        let mut m: usize = 0;
        let mut j: usize = 1;
        proof {
            lemma_lex_refl(texts(work@)[0]);
        }
        while j < work.len()
            invariant
                0 <= m < work.len(),
                1 <= j <= work.len(),
                forall|k: int| 0 <= k < j ==> lex_le(texts(work@)[m as int], #[trigger] texts(work@)[k]),
            decreases work.len() - j,
        {
            if !text_le(work[m].as_str(), work[j].as_str()) {
                proof {
                    lemma_lex_total(work@[m as int]@, work@[j as int]@);
                    assert forall|k: int| 0 <= k < j + 1 implies lex_le(texts(work@)[j as int], #[trigger] texts(work@)[k]) by {
                        if k < j {
                            lemma_lex_trans(texts(work@)[j as int], texts(work@)[m as int], texts(work@)[k]);
                        } else {
                            lemma_lex_refl(texts(work@)[j as int]);
                        }
                    }
                }
                m = j;
            }
            j = j + 1;
        }
        let ghost w0 = work@;
        let ghost o0 = out@;
        let x = work.remove(m);
        out.push(x);
        proof {
            assert(texts(work@) =~= texts(w0).remove(m as int));
            assert(texts(out@) =~= texts(o0).push(x@));
            assert(texts(w0)[m as int] == x@);
            assert(texts(w0).contains(x@));
            texts(w0).to_multiset_ensures();
            texts(o0).to_multiset_ensures();
            assert(texts(w0).to_multiset().count(x@) > 0);
            assert(texts(out@).to_multiset().add(texts(work@).to_multiset()) =~= texts(o0).to_multiset().add(texts(w0).to_multiset()));
            assert forall|a: int, b: int| 0 <= a < b < texts(out@).len() implies lex_le(#[trigger] texts(out@)[a], #[trigger] texts(out@)[b]) by {
                if b == o0.len() {
                    assert(texts(out@)[a] == texts(o0)[a]);
                } else {
                    assert(texts(out@)[a] == texts(o0)[a] && texts(out@)[b] == texts(o0)[b]);
                }
            }
            assert forall|a: int, b: int| 0 <= a < out@.len() && 0 <= b < work@.len() implies lex_le(#[trigger] texts(out@)[a], #[trigger] texts(work@)[b]) by {
                let bb = if b < m { b } else { b + 1 };
                assert(texts(work@)[b] == texts(w0)[bb]);
                if a < o0.len() {
                    assert(texts(out@)[a] == texts(o0)[a]);
                }
            }
        }
    }
    proof {
        assert(texts(work@) =~= Seq::<Seq<char>>::empty());
        assert(texts(out@).to_multiset().add(texts(work@).to_multiset()) =~= texts(out@).to_multiset());
    }
    out
}

/// The adapter tensors among `names` that are not in `used`, in order.
pub open spec fn unused_in(names: Seq<Seq<char>>, used: Seq<Seq<char>>) -> Seq<Seq<char>>
    decreases names.len(),
{
    if names.len() == 0 {
        Seq::empty()
    } else {
        let prev = unused_in(names.drop_last(), used);
        if adapter_name(names.last()) && !used.contains(names.last()) {
            prev.push(names.last())
        } else {
            prev
        }
    }
}

/// The adapter tensors of one adapter file that the merge did not use.
pub fn unused_adapter_tensors(names: &Vec<&str>, used: &Vec<String>) -> (r: Vec<String>)
    ensures
        texts(r@) == unused_in(name_views(names@), texts(used@)),
{
    let ghost ns = name_views(names@);
    let ghost us = texts(used@);
    let mut out: Vec<String> = Vec::new();
    let mut i: usize = 0;
    proof {
        assert(ns.take(0) =~= Seq::<Seq<char>>::empty());
        assert(texts(out@) =~= Seq::<Seq<char>>::empty());
    }
    while i < names.len()
        invariant
            i <= names.len(),
            ns == name_views(names@),
            us == texts(used@),
            texts(out@) == unused_in(ns.take(i as int), us),
        decreases names.len() - i,
    {
        let n = names[i];
        let keep = is_adapter_tensor(n) && !contains_text(used, n);
        let ghost before = out@;
        proof {
            assert(ns.take(i + 1).drop_last() =~= ns.take(i as int));
            assert(ns.take(i + 1).last() == n@);
        }
        if keep {
            out.push(n.to_owned());
            proof {
                assert(texts(out@) =~= texts(before).push(n@));
            }
        }
        i = i + 1;
    }
    proof {
        assert(ns.take(i as int) =~= ns);
    }
    out
}

/// Whether `x` is one of `v`.
fn contains_text(v: &Vec<String>, x: &str) -> (b: bool)
    ensures
        b == texts(v@).contains(x@),
{
    let s = x.to_owned();
    let mut k: usize = 0;
    while k < v.len()
        invariant
            k <= v.len(),
            s@ == x@,
            forall|j: int| 0 <= j < k ==> v@[j]@ != x@,
        decreases v.len() - k,
    {
        if v[k] == s {
            proof {
                assert(texts(v@)[k as int] == x@);
            }
            return true;
        }
        k = k + 1;
    }
    proof {
        if texts(v@).contains(x@) {
            let j = choose|j: int| 0 <= j < texts(v@).len() && texts(v@)[j] == x@;
            assert(v@[j]@ == x@);
        }
    }
    false
}

/// The binary16 bits nearest (ties to even) to the binary32 value with bits
/// `bits`: infinities and NaNs map to infinities and quiet NaNs, values too
/// large to represent to infinity, and values below half the least
/// subnormal to zero.
pub open spec fn f16_bits_of(bits: u32) -> u16 {
    let sign: int = if bits >= 0x8000_0000 { 0x8000 } else { 0 };
    let exp: int = ((bits / 0x80_0000) % 0x100) as int;
    let mant: int = (bits % 0x80_0000) as int;
    if exp == 0xff {
        (sign + 0x7c00 + if mant != 0 { 0x200int } else { 0int }) as u16
    } else {
        let u = exp - 112;
        if u >= 31 {
            (sign + 0x7c00) as u16
        } else if u <= 0 {
            if u < -10 {
                sign as u16
            } else {
                let m = mant + 0x80_0000;
                let sh = (14 - u) as nat;
                let half = m / pow2(sh) as int;
                let rb = (m / pow2((sh - 1) as nat) as int) % 2;
                let sticky = m % pow2((sh - 1) as nat) as int != 0;
                (sign + half + if rb == 1 && (sticky || half % 2 == 1) { 1int } else { 0int }) as u16
            }
        } else {
            let hm = mant / 0x2000;
            let rb = (mant / 0x1000) % 2;
            let sticky = mant % 0x1000 != 0;
            (sign + u * 0x400 + hm + if rb == 1 && (sticky || hm % 2 == 1) { 1int } else { 0int }) as u16
        }
    }
}

/// The binary16 encoding of the binary32 value whose bits are `bits`.
pub fn f16_from_f32_bits(bits: u32) -> (h: u16)
    ensures
        h == f16_bits_of(bits),
{
    let sign: u16 = if bits >= 0x8000_0000 { 0x8000 } else { 0 };
    let exp: u32 = (bits / 0x80_0000) % 0x100;
    let mant: u32 = bits % 0x80_0000;
    if exp == 0xff {
        return sign + 0x7c00 + if mant != 0 { 0x200 } else { 0 };
    }
    let u: i32 = exp as i32 - 112;
    if u >= 31 {
        return sign + 0x7c00;
    }
    if u <= 0 {
        if u < -10 {
            return sign;
        }
        let m: u32 = mant + 0x80_0000;
        let sh: u32 = (14 - u) as u32;
        proof {
            lemma_u32_shr_is_div(m, sh);
            lemma_u32_shr_is_div(m, (sh - 1) as u32);
            lemma_u32_pow2_no_overflow((sh - 1) as nat);
            lemma_u32_shl_is_mul(1, (sh - 1) as u32);
            lemma_pow2_adds((sh - 1) as nat, 1);
            lemma2_to64();
            lemma_pow2_pos((sh - 1) as nat);
            if sh > 14 {
                lemma_pow2_strictly_increases(14, sh as nat);
            }
            assert(m as int / pow2(sh as nat) as int <= 0x3ffint) by (nonlinear_arith)
                requires
                    m <= 0xffffff,
                    pow2(sh as nat) >= 0x4000,
            {
                lemma_div_is_ordered_by_denominator(m as int, 0x4000, pow2(sh as nat) as int);
                lemma_div_is_ordered(m as int, 0xffffff, 0x4000);
            }
        }
        let half: u32 = m >> sh;
        let rb: u32 = (m >> (sh - 1)) % 2;
        let p: u32 = 1u32 << (sh - 1);
        let sticky: bool = m % p != 0;
        let up: u32 = if rb == 1 && (sticky || half % 2 == 1) { 1 } else { 0 };
        return sign + (half + up) as u16;
    }
    let hm: u32 = mant / 0x2000;
    let rb: u32 = (mant / 0x1000) % 2;
    let sticky: bool = mant % 0x1000 != 0;
    let up: u32 = if rb == 1 && (sticky || hm % 2 == 1) { 1 } else { 0 };
    sign + (u as u16) * 0x400 + (hm + up) as u16
}

/// The bfloat16 bits nearest (ties to even) to the binary32 value with bits
/// `bits`; every NaN maps to the quiet NaN `0x7fc0`.
pub open spec fn bf16_bits_of(bits: u32) -> u16 {
    if (bits / 0x80_0000) % 0x100 == 0xff && bits % 0x80_0000 != 0 {
        0x7fc0
    } else {
        ((bits + 0x7fff + (bits / 0x1_0000) % 2) / 0x1_0000) as u16
    }
}

/// The bfloat16 encoding of the binary32 value whose bits are `bits`.
pub fn bf16_from_f32_bits(bits: u32) -> (h: u16)
    ensures
        h == bf16_bits_of(bits),
{
    if (bits / 0x80_0000) % 0x100 == 0xff && bits % 0x80_0000 != 0 {
        return 0x7fc0;
    }
    let bias: u32 = 0x7fff + (bits / 0x1_0000) % 2;
    ((bits + bias) / 0x1_0000) as u16
}

/// A binary16 subnormal significand `m` and exponent `e`, shifted left until
/// its leading bit is bit 10, with the exponent lowered to match.
pub open spec fn sub_norm(m: int, e: int) -> (int, int)
    decreases 0x800 - m,
{
    if m <= 0 || m >= 0x400 {
        (m, e)
    } else {
        sub_norm(m * 2, e - 1)
    }
}

/// The binary32 bits of the value whose binary16 bits are `h` (widening is
/// exact; a NaN stays a NaN, its payload moved to the top of the binary32
/// significand).
pub open spec fn f16_widened(h: u16) -> u32 {
    let sign: int = if h >= 0x8000 { 0x8000_0000 } else { 0 };
    let e: int = ((h / 0x400) % 0x20) as int;
    let m: int = (h % 0x400) as int;
    if e == 0x1f {
        (sign + 0x7f80_0000 + m * 0x2000) as u32
    } else if e > 0 {
        (sign + (e + 112) * 0x80_0000 + m * 0x2000) as u32
    } else if m == 0 {
        sign as u32
    } else {
        let (mm, ee) = sub_norm(m, 113);
        (sign + ee * 0x80_0000 + (mm - 0x400) * 0x2000) as u32
    }
}

/// The binary32 bits of the value whose bfloat16 bits are `h`.
pub open spec fn bf16_widened(h: u16) -> u32 {
    (h * 0x1_0000) as u32
}

/// The binary32 bits of the binary16 value with bits `h`.
pub fn f32_bits_from_f16_bits(h: u16) -> (b: u32)
    ensures
        b == f16_widened(h),
{
    let sign: u32 = if h >= 0x8000 { 0x8000_0000 } else { 0 };
    let e: u32 = ((h / 0x400) % 0x20) as u32;
    let m: u32 = (h % 0x400) as u32;
    if e == 0x1f {
        sign + 0x7f80_0000 + m * 0x2000
    } else if e > 0 {
        sign + (e + 112) * 0x80_0000 + m * 0x2000
    } else if m == 0 {
        sign
    } else {
        let mut mm: u32 = m;
        let mut ee: u32 = 113;
        proof {
            lemma2_to64();
        }
        while mm < 0x400
            invariant
                1 <= mm < 0x800,
                103 <= ee <= 113,
                mm >= pow2((113 - ee) as nat),
                sub_norm(mm as int, ee as int) == sub_norm(m as int, 113),
            decreases 0x800 - mm,
        {
            proof {
                lemma2_to64();
                if ee == 103 {
                    assert(pow2(10) == 0x400);
                }
                lemma_pow2_adds((113 - ee) as nat, 1);
            }
            mm = mm * 2;
            ee = ee - 1;
        }
        sign + ee * 0x80_0000 + (mm - 0x400) * 0x2000
    }
}

/// The magnitude of the finite half `h`, in units of `2^(u - 38)` (the
/// binary32 unit in the last place for a binary32 exponent field of
/// `u + 112`), when `h`'s exponent field is `u` or `u + 1`.
pub open spec fn half_scaled(h: u16, u: int) -> int {
    let e = ((h / 0x400) % 0x20) as int;
    let m = (h % 0x400) as int;
    if e == u {
        (0x400 + m) * 0x2000
    } else {
        (0x400 + m) * 0x4000
    }
}

proof fn lemma_split_half(t: int, s16: int, u: int, k: int)
    by (nonlinear_arith)
    requires
        s16 == 0 || s16 == 0x8000,
        1 <= u <= 30,
        0 <= k <= 0x400,
        t == u * 0x400 + k,
        t < 0x8000,
    ensures
        k < 0x400 ==> ((s16 + t) / 0x400) % 0x20 == u && (s16 + t) % 0x400 == k,
        k == 0x400 ==> ((s16 + t) / 0x400) % 0x20 == u + 1 && (s16 + t) % 0x400 == 0,
        (s16 + t >= 0x8000) == (s16 == 0x8000),
{
}

/// Rounding a binary32 value of the binary16 normal range to binary16 rounds
/// to nearest, ties to even: unless it overflows to infinity, the result
/// keeps the sign, and its magnitude is a multiple of the binary16 spacing
/// within half a spacing of the binary32 magnitude, an exact half only when
/// the result's last significand bit is 0.
pub proof fn lemma_f16_rounds_to_nearest(bits: u32)
    requires
        113 <= (bits / 0x80_0000) % 0x100 <= 142,
        (f16_bits_of(bits) / 0x400) % 0x20 != 0x1f,
    ensures
        ({
            let u = ((bits / 0x80_0000) % 0x100) as int - 112;
            let x = 0x80_0000 + (bits % 0x80_0000) as int;
            let h = f16_bits_of(bits);
            let r = half_scaled(h, u);
            &&& (h >= 0x8000) == (bits >= 0x8000_0000)
            &&& ((h / 0x400) % 0x20 == u || (h / 0x400) % 0x20 == u + 1)
            &&& r % 0x2000 == 0
            &&& -0x1000 <= r - x <= 0x1000
            &&& (r - x == 0x1000 || r - x == -0x1000) ==> (r / 0x2000) % 2 == 0
        }),
{
    let exp = ((bits / 0x80_0000) % 0x100) as int;
    let mant = (bits % 0x80_0000) as int;
    let u = exp - 112;
    let hm = mant / 0x2000;
    let rb = (mant / 0x1000) % 2;
    let sticky = mant % 0x1000 != 0;
    let round: int = if rb == 1 && (sticky || hm % 2 == 1) { 1 } else { 0 };
    let s16: int = if bits >= 0x8000_0000 { 0x8000 } else { 0 };
    let k = hm + round;
    assert(0 <= hm < 0x400 && 0 <= k <= 0x400) by (nonlinear_arith)
        requires
            0 <= mant < 0x80_0000,
            hm == mant / 0x2000,
            round == 0 || round == 1,
            k == hm + round,
            round == 1 ==> rb == 1,
            rb == (mant / 0x1000) % 2,
    ;
    let t = u * 0x400 + k;
    let h = f16_bits_of(bits);
    assert(h == (s16 + t) as u16);
    if t >= 0x7c00 {
        lemma_split_half(t, s16, u, k);
        assert(false);
    }
    lemma_split_half(t, s16, u, k);
    let r = half_scaled(h, u);
    assert(r == 0x80_0000 + k * 0x2000);
    assert({
        let x = 0x80_0000 + mant;
        &&& r % 0x2000 == 0
        &&& -0x1000 <= r - x <= 0x1000
        &&& (r - x == 0x1000 || r - x == -0x1000) ==> (r / 0x2000) % 2 == 0
    }) by (nonlinear_arith)
        requires
            0 <= mant < 0x80_0000,
            hm == mant / 0x2000,
            rb == (mant / 0x1000) % 2,
            sticky == (mant % 0x1000 != 0),
            round == (if rb == 1 && (sticky || hm % 2 == 1) { 1int } else { 0int }),
            k == hm + round,
            r == 0x80_0000 + k * 0x2000,
    ;
}

/// Rounding a binary32 value below the binary16 normal range rounds to
/// nearest, ties to even, on the binary16 subnormal grid: with `p` the grid
/// spacing in units of the binary32 exponent's last place, the result keeps
/// the sign, its magnitude field `t` (at most the least normal, `0x400`) is
/// within half a spacing of the binary32 magnitude, an exact half only when
/// `t` is even; values below half the least subnormal give zero.
pub proof fn lemma_f16_subnormal_rounds_to_nearest(bits: u32)
    requires
        1 <= (bits / 0x80_0000) % 0x100 <= 112,
    ensures
        ({
            let exp = ((bits / 0x80_0000) % 0x100) as int;
            let x = 0x80_0000 + (bits % 0x80_0000) as int;
            let h = f16_bits_of(bits);
            let t = (h % 0x8000) as int;
            let p = pow2((126 - exp) as nat) as int;
            &&& (h >= 0x8000) == (bits >= 0x8000_0000)
            &&& t <= 0x400
            &&& 2 * (t * p - x) <= p && 2 * (x - t * p) <= p
            &&& (2 * (t * p - x) == p || 2 * (x - t * p) == p) ==> t % 2 == 0
        }),
{
    lemma2_to64();
    let exp = ((bits / 0x80_0000) % 0x100) as int;
    let mant = (bits % 0x80_0000) as int;
    let x = 0x80_0000 + mant;
    let u = exp - 112;
    let s16: int = if bits >= 0x8000_0000 { 0x8000 } else { 0 };
    let sh = (126 - exp) as nat;
    let p = pow2(sh) as int;
    let h = f16_bits_of(bits);
    lemma_pow2_pos(sh);
    if u < -10 {
        assert(h == s16 as u16);
        assert(sh >= 25);
        lemma_pow2_strictly_increases(24, sh);
        assert(pow2(24) == 0x100_0000);
        assert(h % 0x8000 == 0 && (h >= 0x8000) == (s16 == 0x8000)) by (nonlinear_arith)
            requires
                h == s16,
                s16 == 0 || s16 == 0x8000,
        ;
        if sh > 25 {
            lemma_pow2_strictly_increases(25, sh);
        }
        assert(pow2(25) == 0x200_0000);
        assert(2 * x < p);
    } else {
        let q = pow2((sh - 1) as nat) as int;
        lemma_pow2_adds((sh - 1) as nat, 1);
        assert(p == 2 * q);
        lemma_pow2_pos((sh - 1) as nat);
        let half = x / p;
        let rb = (x / q) % 2;
        let sticky = x % q != 0;
        let round: int = if rb == 1 && (sticky || half % 2 == 1) { 1 } else { 0 };
        assert(h == (s16 + half + round) as u16);
        let a = x / q;
        let low = x % q;
        vstd::arithmetic::div_mod::lemma_fundamental_div_mod(x, q);
        vstd::arithmetic::div_mod::lemma_mod_pos_bound(x, q);
        vstd::arithmetic::div_mod::lemma_fundamental_div_mod(a, 2);
        vstd::arithmetic::div_mod::lemma_mod_pos_bound(a, 2);
        assert(x == (a / 2) * p + ((a % 2) * q + low)) by (nonlinear_arith)
            requires
                x == q * a + low,
                a == 2 * (a / 2) + a % 2,
                p == 2 * q,
        ;
        assert(0 <= (a % 2) * q + low < p) by (nonlinear_arith)
            requires
                0 <= a % 2 < 2,
                0 <= low < q,
                p == 2 * q,
        ;
        vstd::arithmetic::div_mod::lemma_fundamental_div_mod_converse(x, p, a / 2, (a % 2) * q + low);
        assert(half == a / 2);
        assert(sh >= 14);
        if sh > 14 {
            lemma_pow2_strictly_increases(14, sh);
        }
        assert(pow2(14) == 0x4000);
        assert(half < 0x400) by (nonlinear_arith)
            requires
                half == x / p,
                0 <= x < 0x100_0000,
                p >= 0x4000,
        {
            lemma_div_is_ordered_by_denominator(x, 0x4000, p);
            lemma_div_is_ordered(x, 0xffffff, 0x4000);
        }
        let t = half + round;
        assert(h % 0x8000 == t && (h >= 0x8000) == (s16 == 0x8000)) by (nonlinear_arith)
            requires
                h == s16 + t,
                s16 == 0 || s16 == 0x8000,
                0 <= t <= 0x400,
        ;
        assert(t * p - x == round * p - (rb * q + low)) by (nonlinear_arith)
            requires
                x == half * p + (rb * q + low),
                t == half + round,
        ;
        let d = t * p - x;
        assert(d == round * p - (rb * q + low));
        if round == 1 {
            assert(rb == 1);
            assert(d == q - low) by (nonlinear_arith)
                requires
                    d == round * p - (rb * q + low),
                    round == 1,
                    rb == 1,
                    p == 2 * q,
            ;
        } else if rb == 1 {
            assert(d == -q - low) by (nonlinear_arith)
                requires
                    d == round * p - (rb * q + low),
                    round == 0,
                    rb == 1,
            ;
            assert(!sticky && half % 2 == 0);
        } else {
            assert(rb == 0);
            assert(d == -low) by (nonlinear_arith)
                requires
                    d == round * p - (rb * q + low),
                    round == 0,
                    rb == 0,
            ;
        }
    }
}

/// The binary32 bits of the bfloat16 value with bits `h`.
pub fn f32_bits_from_bf16_bits(h: u16) -> (b: u32)
    ensures
        b == bf16_widened(h),
{
    (h as u32) * 0x1_0000
}

proof fn lemma_f32_fields(s: int, e: int, m: int)
    by (nonlinear_arith)
    requires
        0 <= s <= 1,
        0 <= e < 0x100,
        0 <= m < 0x80_0000,
    ensures
        (s * 0x8000_0000 + e * 0x80_0000 + m >= 0x8000_0000) == (s == 1),
        ((s * 0x8000_0000 + e * 0x80_0000 + m) / 0x80_0000) % 0x100 == e,
        (s * 0x8000_0000 + e * 0x80_0000 + m) % 0x80_0000 == m,
{
}

proof fn lemma_f16_fields(h: int)
    by (nonlinear_arith)
    requires
        0 <= h < 0x1_0000,
    ensures
        h == (if h >= 0x8000 { 0x8000int } else { 0int }) + ((h / 0x400) % 0x20) * 0x400 + h % 0x400,
{
}

proof fn lemma_sub_norm(m: int, e: int) -> (k: nat)
    requires
        1 <= m < 0x800,
    ensures
        sub_norm(m, e) == (m * pow2(k), e - k),
        0x400 <= m * pow2(k) < 0x800,
        m < 0x400 ==> k >= 1,
        k <= 10,
    decreases 0x800 - m,
{
    lemma2_to64();
    if m >= 0x400 {
        assert(m * pow2(0) == m);
        0
    } else {
        let k1 = lemma_sub_norm(m * 2, e - 1);
        lemma_pow2_adds(k1, 1);
        assert(m * pow2(k1 + 1) == (m * 2) * pow2(k1)) by (nonlinear_arith)
            requires
                pow2(k1 + 1) == pow2(k1) * 2,
        ;
        let k = k1 + 1;
        if k > 10 {
            lemma_pow2_strictly_increases(10, k);
            assert(m * pow2(k) >= pow2(k)) by (nonlinear_arith)
                requires
                    m >= 1,
                    pow2(k) >= 0,
            ;
        }
        k
    }
}

/// Widening a binary16 value to binary32 and rounding it back gives the same
/// bits, for every value that is not a NaN (a NaN comes back as a NaN).
pub proof fn lemma_f16_round_trip(h: u16)
    ensures
        !(((h / 0x400) % 0x20) == 0x1f && h % 0x400 != 0) ==> f16_bits_of(f16_widened(h)) == h,
        ((h / 0x400) % 0x20) == 0x1f && h % 0x400 != 0 ==> {
            let r = f16_bits_of(f16_widened(h));
            (r / 0x400) % 0x20 == 0x1f && r % 0x400 != 0
        },
{
    lemma2_to64();
    let s: int = if h >= 0x8000 { 1 } else { 0 };
    let e: int = ((h / 0x400) % 0x20) as int;
    let m: int = (h % 0x400) as int;
    lemma_f16_fields(h as int);
    let bits = f16_widened(h);
    if e == 0x1f {
        lemma_f32_fields(s, 0xff, m * 0x2000);
        let r = f16_bits_of(bits);
        if m != 0 {
            assert(r == (s * 0x8000 + 0x7c00 + 0x200) as u16);
            assert((r / 0x400) % 0x20 == 0x1f && r % 0x400 != 0) by (nonlinear_arith)
                requires
                    r == s * 0x8000 + 0x7c00 + 0x200,
                    0 <= s <= 1,
            ;
        }
    } else if e > 0 {
        lemma_f32_fields(s, e + 112, m * 0x2000);
        assert((m * 0x2000) / 0x2000 == m);
        assert(((m * 0x2000) / 0x1000) % 2 == 0);
    } else if m == 0 {
        lemma_f32_fields(s, 0, 0);
    } else {
        let k = lemma_sub_norm(m, 113);
        let mm = m * pow2(k);
        let ee = 113 - k;
        lemma_f32_fields(s, ee, (mm - 0x400) * 0x2000);
        let u = ee - 112;
        let sh = (14 - u) as nat;
        assert(sh == k + 13);
        lemma_pow2_adds(k, 13);
        lemma_pow2_adds(k, 12);
        let big = (mm - 0x400) * 0x2000 + 0x80_0000;
        assert(big == m * pow2(sh)) by (nonlinear_arith)
            requires
                mm == m * pow2(k),
                pow2(sh) == pow2(k) * pow2(13),
                pow2(13) == 0x2000,
                big == (mm - 0x400) * 0x2000 + 0x80_0000,
        ;
        assert(big == (2 * m) * pow2((sh - 1) as nat)) by (nonlinear_arith)
            requires
                big == m * pow2(sh),
                pow2(sh) == pow2((sh - 1) as nat) * 2,
        ;
        lemma_pow2_adds((sh - 1) as nat, 1);
        lemma_pow2_pos(sh);
        lemma_pow2_pos((sh - 1) as nat);
        vstd::arithmetic::div_mod::lemma_div_multiples_vanish(m, pow2(sh) as int);
        vstd::arithmetic::div_mod::lemma_div_multiples_vanish(2 * m, pow2((sh - 1) as nat) as int);
        let d0 = pow2(sh) as int;
        assert(big == d0 * m) by (nonlinear_arith)
            requires
                big == m * d0,
        ;
        assert(big / d0 == m);
        let d1 = pow2((sh - 1) as nat) as int;
        assert(big == d1 * (2 * m)) by (nonlinear_arith)
            requires
                big == (2 * m) * d1,
        ;
        assert(big / d1 == 2 * m);
    }
}

/// Widening a bfloat16 value to binary32 and rounding it back gives the same
/// bits, for every value that is not a NaN.
pub proof fn lemma_bf16_round_trip(h: u16)
    requires
        !((h / 0x80) % 0x100 == 0xff && h % 0x80 != 0),
    ensures
        bf16_bits_of(bf16_widened(h)) == h,
{
    let b = bf16_widened(h);
    assert(b == h * 0x1_0000);
    assert((b / 0x80_0000) % 0x100 == (h / 0x80) % 0x100 && (b % 0x80_0000 != 0) == (h % 0x80 != 0)
        && (b + 0x7fff + (b / 0x1_0000) % 2) / 0x1_0000 == h) by (nonlinear_arith)
        requires
            b == h * 0x1_0000,
            0 <= h < 0x1_0000,
    ;
}

/// The output and input sizes one adapter pair contributes, from the 2-D
/// shapes of its A matrix (`rank × in`) and B matrix (`out × rank`):
/// `None` when the inner ranks disagree, or when an earlier pair of the same
/// module gave other sizes.
pub open spec fn pair_dims_of(a_rows: usize, a_cols: usize, b_rows: usize, b_cols: usize, prior: Option<(usize, usize)>) -> Option<(usize, usize)> {
    if a_rows != b_cols {
        None
    } else {
        match prior {
            Some((o, i)) => if o != b_rows || i != a_cols {
                None
            } else {
                Some((b_rows, a_cols))
            },
            None => Some((b_rows, a_cols)),
        }
    }
}

/// Checks the shapes of one adapter pair: A (`a_name`, `a_rows × a_cols`)
/// and B (`b_name`, `b_rows × b_cols`) must share the rank, and match the
/// sizes `prior` of earlier pairs of the module; gives `(out, in)`.
pub fn pair_dims(a_name: &str, b_name: &str, a_rows: usize, a_cols: usize, b_rows: usize, b_cols: usize, prior: Option<(usize, usize)>) -> (r: Result<(usize, usize), MergeError>)
    ensures
        match pair_dims_of(a_rows, a_cols, b_rows, b_cols, prior) {
            Some(d) => r == Ok::<(usize, usize), MergeError>(d),
            None => r matches Err(MergeError::Shape(_)),
        },
{
    if a_rows != b_cols {
        let mut m = a_name.to_owned();
        push_str(&mut m, "/");
        push_str(&mut m, b_name);
        push_str(&mut m, " inner ranks disagree: A rows ");
        push_decimal(&mut m, a_rows as u64);
        push_str(&mut m, ", B cols ");
        push_decimal(&mut m, b_cols as u64);
        return Err(MergeError::Shape(m));
    }
    if let Some((o, i)) = prior {
        if o != b_rows || i != a_cols {
            let mut m = a_name.to_owned();
            push_str(&mut m, "/");
            push_str(&mut m, b_name);
            push_str(&mut m, " dims (");
            push_decimal(&mut m, b_rows as u64);
            push_str(&mut m, ",");
            push_decimal(&mut m, a_cols as u64);
            push_str(&mut m, ") disagree with earlier adapter dims (");
            push_decimal(&mut m, o as u64);
            push_str(&mut m, ",");
            push_decimal(&mut m, i as u64);
            push_str(&mut m, ")");
            return Err(MergeError::Shape(m));
        }
    }
    Ok((b_rows, a_cols))
}

/// The dtype merged values are stored in: the base's float type, or `F32`
/// for any other base type.
pub open spec fn merged_dtype_of(d: Dtype) -> Dtype {
    match d {
        Dtype::F16 => Dtype::F16,
        Dtype::BF16 => Dtype::BF16,
        Dtype::F64 => Dtype::F64,
        _ => Dtype::F32,
    }
}

/// The dtype merged values of a base tensor of type `d` are stored in.
pub fn merged_dtype(d: Dtype) -> (r: Dtype)
    ensures
        r == merged_dtype_of(d),
{
    match d {
        Dtype::F16 => Dtype::F16,
        Dtype::BF16 => Dtype::BF16,
        Dtype::F64 => Dtype::F64,
        _ => Dtype::F32,
    }
}

} // verus!
