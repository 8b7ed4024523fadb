//! What byte-level BPE guarantees: merging never changes the text, and
//! decoding what was encoded gives the text back.

use vstd::prelude::*;
use vstd::utf8::encode_utf8;

use crate::bpe::{
    best_from, bpe, bpe_word, concat, first_unknown, id_for, merge_at, pieces_ids, pieces_unknown, rank_of, singletons, special_at, special_scan, special_text, sub_ids,
    BpeTokenizer,
};
use crate::pretokenize::{
    alphabetic, byte_level, contraction_at, first_contraction, gpt2_from, gpt2_pieces, in_class,
    lemma_byte_level_round_trip, numeric, run_end,
};
use crate::text::is_white_space;
use crate::tokenizer::{TokenId, Tokenizer};

verus! {

/// `concat` distributes over appending sequences of symbols.
pub proof fn lemma_concat_append(a: Seq<Seq<char>>, b: Seq<Seq<char>>)
    ensures
        concat(a + b) == concat(a) + concat(b),
    decreases b.len(),
{
    if b.len() == 0 {
        assert(a + b =~= a);
        assert(concat(a) + Seq::<char>::empty() =~= concat(a));
    } else {
        assert((a + b).drop_last() =~= a + b.drop_last());
        lemma_concat_append(a, b.drop_last());
        assert(concat(a) + concat(b.drop_last()) + b.last() =~= concat(a) + (concat(b.drop_last())
            + b.last()));
    }
}

/// Joining two adjacent symbols keeps the text.
pub proof fn lemma_merge_at_concat(syms: Seq<Seq<char>>, i: int)
    requires
        0 <= i && i + 1 < syms.len(),
    ensures
        concat(merge_at(syms, i)) == concat(syms),
{
    let pre = syms.take(i);
    let rest = syms.skip(i + 2);
    assert(syms =~= pre + seq![syms[i], syms[i + 1]] + rest);
    lemma_concat_append(pre.push(syms[i] + syms[i + 1]), rest);
    lemma_concat_append(pre + seq![syms[i], syms[i + 1]], rest);
    lemma_concat_append(pre, seq![syms[i], syms[i + 1]]);
    assert(pre.push(syms[i] + syms[i + 1]).drop_last() =~= pre);
    assert(seq![syms[i], syms[i + 1]].drop_last() =~= seq![syms[i]]);
    assert(seq![syms[i]].drop_last() =~= Seq::<Seq<char>>::empty());
    assert(concat(Seq::<Seq<char>>::empty()) =~= Seq::<char>::empty());
    assert(concat(seq![syms[i]]) =~= syms[i]);
    assert(concat(seq![syms[i], syms[i + 1]]) =~= concat(seq![syms[i]]) + syms[i + 1]);
    assert(concat(seq![syms[i], syms[i + 1]]) =~= syms[i] + syms[i + 1]);
    assert(concat(pre) + (syms[i] + syms[i + 1]) =~= concat(pre) + concat(seq![syms[i], syms[i + 1]]));
}

/// Merging never changes the text of a word.
pub proof fn lemma_bpe_keeps_text(syms: Seq<Seq<char>>, ranks: Map<Seq<char>, usize>)
    ensures
        concat(bpe(syms, ranks)) == concat(syms),
    decreases syms.len(),
{
    match crate::bpe::best_from(syms, ranks, 0, None) {
        Some((_, i)) => if 0 <= i && i + 1 < syms.len() {
            lemma_merge_at_concat(syms, i);
            lemma_bpe_keeps_text(merge_at(syms, i), ranks);
        },
        None => {},
    }
}

/// One-character symbols spell the word.
pub proof fn lemma_singletons_concat(w: Seq<char>)
    ensures
        concat(singletons(w)) == w,
    decreases w.len(),
{
    if w.len() > 0 {
        assert(singletons(w).drop_last() =~= singletons(w.drop_last()));
        lemma_singletons_concat(w.drop_last());
        assert(w.drop_last() + seq![w.last()] =~= w);
    }
}

/// The sub-words of a word spell the word.
pub proof fn lemma_bpe_word_text(w: Seq<char>, ranks: Map<Seq<char>, usize>)
    ensures
        concat(bpe_word(w, ranks)) == w,
{
    if w.len() > 0 {
        lemma_bpe_keeps_text(singletons(w), ranks);
        lemma_singletons_concat(w);
    }
}

proof fn lemma_best_from(syms: Seq<Seq<char>>, ranks: Map<Seq<char>, usize>, i: int, best: Option<(usize, int)>)
    requires
        0 <= i,
        best matches Some((_, k)) ==> 0 <= k && k + 1 < syms.len(),
    ensures
        best_from(syms, ranks, i, best) matches Some((_, k)) ==> 0 <= k && k + 1 < syms.len(),
        best is Some ==> best_from(syms, ranks, i, best) is Some,
        best_from(syms, ranks, i, best) is None ==> forall|j: int|
            i <= j && j + 1 < syms.len() ==> rank_of(ranks, #[trigger] syms[j], syms[j + 1]) is None,
    decreases syms.len() - i,
{
    if i + 1 < syms.len() {
        match rank_of(ranks, syms[i], syms[i + 1]) {
            Some(r) => if best is None || r < best.unwrap().0 {
                lemma_best_from(syms, ranks, i + 1, Some((r, i)));
            } else {
                lemma_best_from(syms, ranks, i + 1, best);
            },
            None => lemma_best_from(syms, ranks, i + 1, best),
        }
    }
}

proof fn lemma_best_from_min(syms: Seq<Seq<char>>, ranks: Map<Seq<char>, usize>, i: int, best: Option<(usize, int)>)
    requires
        0 <= i,
        best is None ==> forall|j: int| 0 <= j < i && j + 1 < syms.len() ==> rank_of(ranks, #[trigger] syms[j], syms[j + 1]) is None,
        best matches Some((r, k)) ==> {
            &&& 0 <= k < i && k + 1 < syms.len()
            &&& rank_of(ranks, syms[k], syms[k + 1]) == Some(r)
            &&& forall|j: int| 0 <= j < i && j + 1 < syms.len() && (#[trigger] rank_of(ranks, syms[j], syms[j + 1])) is Some
                ==> r <= rank_of(ranks, syms[j], syms[j + 1])->Some_0
            &&& forall|j: int| 0 <= j < k && (#[trigger] rank_of(ranks, syms[j], syms[j + 1])) is Some
                ==> r < rank_of(ranks, syms[j], syms[j + 1])->Some_0
        },
    ensures
        best_from(syms, ranks, i, best) is None ==> forall|j: int| 0 <= j && j + 1 < syms.len() ==> rank_of(ranks, #[trigger] syms[j], syms[j + 1]) is None,
        best_from(syms, ranks, i, best) matches Some((r, k)) ==> {
            &&& 0 <= k && k + 1 < syms.len()
            &&& rank_of(ranks, syms[k], syms[k + 1]) == Some(r)
            &&& forall|j: int| 0 <= j && j + 1 < syms.len() && (#[trigger] rank_of(ranks, syms[j], syms[j + 1])) is Some
                ==> r <= rank_of(ranks, syms[j], syms[j + 1])->Some_0
            &&& forall|j: int| 0 <= j < k && (#[trigger] rank_of(ranks, syms[j], syms[j + 1])) is Some
                ==> r < rank_of(ranks, syms[j], syms[j + 1])->Some_0
        },
    decreases syms.len() - i,
{
    if i + 1 < syms.len() {
        match rank_of(ranks, syms[i], syms[i + 1]) {
            Some(r) => if best is None || r < best.unwrap().0 {
                lemma_best_from_min(syms, ranks, i + 1, Some((r, i)));
            } else {
                lemma_best_from_min(syms, ranks, i + 1, best);
            },
            None => lemma_best_from_min(syms, ranks, i + 1, best),
        }
    }
}

/// Each BPE step merges the adjacent pair of lowest rank, the leftmost one
/// among equals: when some adjacent pair is ranked, there is a pair `k`
/// whose rank is at most that of every ranked pair and below that of every
/// ranked pair to its left, and merging runs on from `syms` with `k` joined;
/// when no pair is ranked, the symbols are left as they are.
pub proof fn lemma_bpe_merges_lowest_rank_first(syms: Seq<Seq<char>>, ranks: Map<Seq<char>, usize>)
    ensures
        (forall|j: int| 0 <= j && j + 1 < syms.len() ==> rank_of(ranks, #[trigger] syms[j], syms[j + 1]) is None)
            ==> bpe(syms, ranks) == syms,
        (exists|j: int| 0 <= j && j + 1 < syms.len() && (#[trigger] rank_of(ranks, syms[j], syms[j + 1])) is Some)
            ==> exists|k: int| {
                &&& 0 <= k && k + 1 < syms.len()
                &&& #[trigger] rank_of(ranks, syms[k], syms[k + 1]) is Some
                &&& forall|j: int| 0 <= j && j + 1 < syms.len() && (#[trigger] rank_of(ranks, syms[j], syms[j + 1])) is Some
                    ==> rank_of(ranks, syms[k], syms[k + 1])->Some_0 <= rank_of(ranks, syms[j], syms[j + 1])->Some_0
                &&& forall|j: int| 0 <= j < k && (#[trigger] rank_of(ranks, syms[j], syms[j + 1])) is Some
                    ==> rank_of(ranks, syms[k], syms[k + 1])->Some_0 < rank_of(ranks, syms[j], syms[j + 1])->Some_0
                &&& bpe(syms, ranks) == bpe(merge_at(syms, k), ranks)
            },
{
    lemma_best_from_min(syms, ranks, 0, None);
    match best_from(syms, ranks, 0, None) {
        Some((r, k)) => {
            assert(rank_of(ranks, syms[k], syms[k + 1]) is Some);
        },
        None => {},
    }
}

proof fn lemma_bpe_pieces(syms: Seq<Seq<char>>, ranks: Map<Seq<char>, usize>)
    requires
        syms.len() > 0,
        forall|i: int| 0 <= i < syms.len() ==> (#[trigger] syms[i]).len() > 0,
    ensures
        bpe(syms, ranks).len() > 0,
        forall|i: int| 0 <= i < bpe(syms, ranks).len() ==> (#[trigger] bpe(syms, ranks)[i]).len() > 0,
        forall|j: int| 0 <= j && j + 1 < bpe(syms, ranks).len() ==> rank_of(ranks, #[trigger] bpe(syms, ranks)[j], bpe(syms, ranks)[j + 1]) is None,
    decreases syms.len(),
{
    lemma_best_from(syms, ranks, 0, None);
    match best_from(syms, ranks, 0, None) {
        Some((_, i)) => {
            let m = merge_at(syms, i);
            assert(m.len() == syms.len() - 1);
            assert forall|k: int| 0 <= k < m.len() implies (#[trigger] m[k]).len() > 0 by {
                if k < i {
                    assert(m[k] == syms[k]);
                } else if k == i {
                    assert(m[k] == syms[i] + syms[i + 1]);
                } else {
                    assert(m[k] == syms[k + 1]);
                }
            }
            lemma_bpe_pieces(m, ranks);
        },
        None => {},
    }
}

/// BPE's split of a word: its pieces spell the word, there are none exactly
/// when the word is empty, none is empty, and no two neighbours form a
/// ranked merge (merging ran until no ranked pair was left).
pub proof fn lemma_bpe_word_pieces(w: Seq<char>, ranks: Map<Seq<char>, usize>)
    ensures
        concat(bpe_word(w, ranks)) == w,
        bpe_word(w, ranks).len() == 0 <==> w.len() == 0,
        forall|i: int| 0 <= i < bpe_word(w, ranks).len() ==> (#[trigger] bpe_word(w, ranks)[i]).len() > 0,
        forall|j: int| 0 <= j && j + 1 < bpe_word(w, ranks).len() ==> rank_of(ranks, #[trigger] bpe_word(w, ranks)[j], bpe_word(w, ranks)[j + 1]) is None,
{
    lemma_bpe_word_text(w, ranks);
    if w.len() > 0 {
        let sg = singletons(w);
        assert forall|i: int| 0 <= i < sg.len() implies (#[trigger] sg[i]).len() > 0 by {
            assert(sg[i] == seq![w[i]]);
        }
        lemma_bpe_pieces(sg, ranks);
    }
}

/// `encode_utf8` distributes over concatenation.
pub proof fn lemma_encode_utf8_append(a: Seq<char>, b: Seq<char>)
    ensures
        encode_utf8(a + b) == encode_utf8(a) + encode_utf8(b),
    decreases a.len(),
{
    if a.len() == 0 {
        assert(a + b =~= b);
        assert(Seq::<u8>::empty() + encode_utf8(b) =~= encode_utf8(b));
    } else {
        assert((a + b).drop_first() =~= a.drop_first() + b);
        assert((a + b)[0] == a[0]);
        lemma_encode_utf8_append(a.drop_first(), b);
        assert(vstd::utf8::encode_scalar(a[0] as u32) + (encode_utf8(a.drop_first()) + encode_utf8(b))
            =~= vstd::utf8::encode_scalar(a[0] as u32) + encode_utf8(a.drop_first()) + encode_utf8(b));
    }
}

/// The byte-level form distributes over concatenation.
pub proof fn lemma_byte_level_append(a: Seq<char>, b: Seq<char>)
    ensures
        byte_level(a + b) == byte_level(a) + byte_level(b),
{
    lemma_encode_utf8_append(a, b);
    assert(byte_level(a + b) =~= byte_level(a) + byte_level(b));
}

/// The texts of byte-level pieces, concatenated, are the byte-level form of
/// the pieces concatenated.
pub proof fn lemma_byte_level_concat(ps: Seq<Seq<char>>)
    ensures
        concat(ps.map_values(|p: Seq<char>| byte_level(p))) == byte_level(concat(ps)),
    decreases ps.len(),
{
    if ps.len() == 0 {
        assert(byte_level(Seq::<char>::empty()) =~= Seq::<char>::empty());
        assert(concat(ps.map_values(|p: Seq<char>| byte_level(p))) =~= Seq::<char>::empty());
    } else {
        assert(ps.map_values(|p: Seq<char>| byte_level(p)).drop_last() =~= ps.drop_last().map_values(
            |p: Seq<char>| byte_level(p),
        ));
        lemma_byte_level_concat(ps.drop_last());
        lemma_byte_level_append(concat(ps.drop_last()), ps.last());
    }
}

proof fn lemma_run_end(s: Seq<char>, j: int, class: int)
    requires
        0 <= j <= s.len(),
    ensures
        j <= run_end(s, j, class) <= s.len(),
        j < s.len() && in_class(s[j], class) ==> j < run_end(s, j, class),
    decreases s.len() - j,
{
    if j < s.len() && in_class(s[j], class) {
        lemma_run_end(s, j + 1, class);
    }
}

proof fn lemma_first_contraction_matches(s: Seq<char>, i: int, k: int)
    ensures
        first_contraction(s, i, k) matches Some(p) ==> p.len() >= 2 && i + p.len() <= s.len()
            && s.subrange(i, i + p.len()) == p,
    decreases 7 - k,
{
    if 0 <= k < 7 {
        lemma_first_contraction_matches(s, i, k + 1);
    }
}

proof fn lemma_gpt2_nonempty(s: Seq<char>, i: int, acc: Seq<Seq<char>>)
    requires
        forall|k: int| 0 <= k < acc.len() ==> (#[trigger] acc[k]).len() > 0,
    ensures
        forall|k: int| 0 <= k < gpt2_from(s, i, acc).len() ==> (#[trigger] gpt2_from(s, i, acc)[k]).len() > 0,
    decreases s.len() - i,
{
    if 0 <= i < s.len() {
        match contraction_at(s, i) {
            Some(p) => if p.len() > 0 && i + p.len() <= s.len() {
                let a2 = acc.push(p);
                assert forall|k: int| 0 <= k < a2.len() implies (#[trigger] a2[k]).len() > 0 by {
                    if k < acc.len() {
                        assert(a2[k] == acc[k]);
                    }
                }
                lemma_gpt2_nonempty(s, i + p.len(), a2);
                assert(gpt2_from(s, i, acc) == gpt2_from(s, i + p.len(), a2));
            },
            None => {
                let lead = s[i] == ' ' && i + 1 < s.len() && !is_white_space(s[i + 1]);
                let j = if lead { i + 1 } else { i };
                let class = if alphabetic(s[j]) {
                    0int
                } else if numeric(s[j]) {
                    1int
                } else if !is_white_space(s[j]) {
                    2int
                } else {
                    3int
                };
                let e = run_end(s, j, class);
                if !(e <= i || e > s.len()) {
                    let a2 = acc.push(s.subrange(i, e));
                    assert forall|k: int| 0 <= k < a2.len() implies (#[trigger] a2[k]).len() > 0 by {
                        if k < acc.len() {
                            assert(a2[k] == acc[k]);
                        }
                    }
                    lemma_gpt2_nonempty(s, e, a2);
                    assert(gpt2_from(s, i, acc) == gpt2_from(s, e, a2));
                } else {
                    assert(gpt2_from(s, i, acc) == acc);
                }
            },
        }
    }
}

/// GPT-2 pre-tokenization is lossless and has no empty pieces: the pieces
/// concatenate to the text, in order, and none is empty.
pub proof fn lemma_gpt2_pieces(s: Seq<char>)
    ensures
        concat(gpt2_pieces(s)) == s,
        forall|k: int| 0 <= k < gpt2_pieces(s).len() ==> (#[trigger] gpt2_pieces(s)[k]).len() > 0,
{
    assert(concat(Seq::<Seq<char>>::empty()) == s.take(0));
    lemma_gpt2_text(s, 0, Seq::empty());
    lemma_gpt2_nonempty(s, 0, Seq::empty());
}

/// GPT-2 pieces spell the text they came from.
pub proof fn lemma_gpt2_text(s: Seq<char>, i: int, acc: Seq<Seq<char>>)
    requires
        0 <= i <= s.len(),
        concat(acc) == s.take(i),
    ensures
        concat(gpt2_from(s, i, acc)) == s,
    decreases s.len() - i,
{
    if i == s.len() {
        assert(s.take(i) =~= s);
    } else {
        match contraction_at(s, i) {
            Some(p) => {
                lemma_first_contraction_matches(s, i, 0);
                let e = i + p.len();
                assert(s.take(e) =~= s.take(i) + s.subrange(i, e));
                assert(acc.push(p).drop_last() =~= acc);
                assert(concat(acc.push(p)) == concat(acc) + p);
                lemma_gpt2_text(s, e, acc.push(p));
            },
            None => {
                let lead = s[i] == ' ' && i + 1 < s.len() && !is_white_space(s[i + 1]);
                let j = if lead {
                    i + 1
                } else {
                    i
                };
                let class = if alphabetic(s[j]) {
                    0int
                } else if numeric(s[j]) {
                    1int
                } else if !is_white_space(s[j]) {
                    2int
                } else {
                    3int
                };
                assert(in_class(s[j], class));
                lemma_run_end(s, j, class);
                let e = run_end(s, j, class);
                assert(s.take(e) =~= s.take(i) + s.subrange(i, e));
                assert(acc.push(s.subrange(i, e)).drop_last() =~= acc);
                assert(concat(acc.push(s.subrange(i, e))) == concat(acc) + s.subrange(i, e));
                lemma_gpt2_text(s, e, acc.push(s.subrange(i, e)));
            },
        }
    }
}

/// The text of ids, each mapped through `im`.
pub open spec fn ids_text(im: Map<TokenId, Seq<char>>, ids: Seq<TokenId>) -> Seq<char>
    decreases ids.len(),
{
    if ids.len() == 0 {
        Seq::empty()
    } else {
        ids_text(im, ids.drop_last()) + im[ids.last()]
    }
}

proof fn lemma_ids_text_append(im: Map<TokenId, Seq<char>>, a: Seq<TokenId>, b: Seq<TokenId>)
    ensures
        ids_text(im, a + b) == ids_text(im, a) + ids_text(im, b),
    decreases b.len(),
{
    if b.len() == 0 {
        assert(a + b =~= a);
        assert(ids_text(im, a) + Seq::<char>::empty() =~= ids_text(im, a));
    } else {
        assert((a + b).drop_last() =~= a + b.drop_last());
        lemma_ids_text_append(im, a, b.drop_last());
        assert(ids_text(im, a) + ids_text(im, b.drop_last()) + im[b.last()] =~= ids_text(im, a) + (
        ids_text(im, b.drop_last()) + im[b.last()]));
    }
}

/// Without `<unk>`, sub-word ids exist only for vocabulary entries, and
/// map back to the sub-words' text through an inverse id map.
proof fn lemma_sub_ids_text(
    tm: Map<Seq<char>, TokenId>,
    im: Map<TokenId, Seq<char>>,
    subs: Seq<Seq<char>>,
)
    requires
        !tm.contains_key("<unk>"@),
        forall|t: Seq<char>| #[trigger] tm.contains_key(t) ==> im.contains_key(tm[t]) && im[tm[t]] == t,
        sub_ids(tm, subs) is Some,
    ensures
        ids_text(im, sub_ids(tm, subs).unwrap()) == concat(subs),
        forall|k: int| 0 <= k < sub_ids(tm, subs).unwrap().len() ==> im.contains_key(#[trigger] sub_ids(tm, subs).unwrap()[k]),
    decreases subs.len(),
{
    if subs.len() > 0 {
        lemma_sub_ids_text(tm, im, subs.drop_last());
        let x = sub_ids(tm, subs).unwrap();
        assert(x.drop_last() =~= sub_ids(tm, subs.drop_last()).unwrap());
        assert(tm.contains_key(subs.last()));
    }
}

/// Pieces' ids map back to the pieces' text.
proof fn lemma_pieces_ids_text(
    tm: Map<Seq<char>, TokenId>,
    im: Map<TokenId, Seq<char>>,
    rk: Map<Seq<char>, usize>,
    ps: Seq<Seq<char>>,
)
    requires
        !tm.contains_key("<unk>"@),
        forall|t: Seq<char>| #[trigger] tm.contains_key(t) ==> im.contains_key(tm[t]) && im[tm[t]] == t,
        pieces_ids(tm, rk, ps) is Some,
    ensures
        ids_text(im, pieces_ids(tm, rk, ps).unwrap()) == concat(ps),
        forall|k: int| 0 <= k < pieces_ids(tm, rk, ps).unwrap().len() ==> im.contains_key(#[trigger] pieces_ids(tm, rk, ps).unwrap()[k]),
    decreases ps.len(),
{
    if ps.len() > 0 {
        lemma_pieces_ids_text(tm, im, rk, ps.drop_last());
        let p = pieces_ids(tm, rk, ps.drop_last()).unwrap();
        let subs = bpe_word(ps.last(), rk);
        lemma_sub_ids_text(tm, im, subs);
        let x = sub_ids(tm, subs).unwrap();
        lemma_ids_text_append(im, p, x);
        lemma_bpe_word_text(ps.last(), rk);
        let all = pieces_ids(tm, rk, ps).unwrap();
        assert(all == p + x);
        assert forall|k: int| 0 <= k < all.len() implies im.contains_key(#[trigger] all[k]) by {
            if k < p.len() {
                assert(all[k] == p[k]);
            } else {
                assert(all[k] == x[k - p.len()]);
            }
        }
    }
}

/// Without special tokens no position starts one.
proof fn lemma_no_specials(sp: Seq<(Seq<char>, TokenId)>, s: Seq<char>, i: int)
    requires
        sp.len() == 0,
    ensures
        special_at(sp, s, i) is None,
{
}

proof fn lemma_enc_no_specials(t: BpeTokenizer, s: Seq<char>, i: int, start: int, acc: Seq<TokenId>)
    requires
        t.specials_model().len() == 0,
        0 <= start <= i <= s.len(),
    ensures
        t.enc_from(s, i, start, acc) == match t.segment_ids(s.subrange(start, s.len() as int)) {
            Some(x) => Some(acc + x),
            None => None,
        },
    decreases s.len() - i,
{
    if i < s.len() {
        lemma_no_specials(t.specials_model(), s, i);
        lemma_enc_no_specials(t, s, i + 1, start, acc);
    }
}

proof fn lemma_dec_no_specials(t: BpeTokenizer, ids: Seq<TokenId>, k: int, pending: Seq<char>)
    requires
        t.specials_model().len() == 0,
        t.is_byte_level(),
        0 <= k <= ids.len(),
        forall|q: int| 0 <= q < ids.len() ==> t.id_map().contains_key(#[trigger] ids[q]),
    ensures
        t.dec_from(ids, k, pending, Seq::empty()) == match crate::pretokenize::from_byte_level(
            pending + ids_text(t.id_map(), ids.subrange(k, ids.len() as int)),
        ) {
            Some(x) => Some(Seq::<char>::empty() + x),
            None => None,
        },
    decreases ids.len() - k,
{
    let rest = ids.subrange(k, ids.len() as int);
    if k == ids.len() {
        assert(rest =~= Seq::<TokenId>::empty());
        assert(pending + ids_text(t.id_map(), rest) =~= pending);
    } else {
        assert(crate::bpe::special_text(t.specials_model(), ids[k]) is None);
        lemma_dec_no_specials(t, ids, k + 1, pending + t.id_map()[ids[k]]);
        let next = ids.subrange(k + 1, ids.len() as int);
        assert(rest =~= seq![ids[k]] + next);
        lemma_ids_text_append(t.id_map(), seq![ids[k]], next);
        assert(seq![ids[k]].drop_last() =~= Seq::<TokenId>::empty());
        assert(ids_text(t.id_map(), Seq::<TokenId>::empty()) =~= Seq::<char>::empty());
        assert(seq![ids[k]].last() == ids[k]);
        assert(ids_text(t.id_map(), seq![ids[k]]) =~= t.id_map()[ids[k]]);
        assert(pending + t.id_map()[ids[k]] + ids_text(t.id_map(), next) =~= pending + ids_text(
            t.id_map(),
            rest,
        ));
    }
}

/// Byte-level BPE round trip: with no special tokens, no `<unk>` entry, and
/// an id map that sends every vocabulary id back to its token, decoding the
/// ids of any text that encodes gives the text back.
pub proof fn lemma_bpe_byte_level_round_trip(t: BpeTokenizer, s: Seq<char>)
    requires
        t.is_byte_level(),
        t.specials_model().len() == 0,
        !t.token_map().contains_key("<unk>"@),
        forall|tok: Seq<char>| #[trigger] t.token_map().contains_key(tok) ==> t.id_map().contains_key(
            t.token_map()[tok],
        ) && t.id_map()[t.token_map()[tok]] == tok,
        t.encode_spec(s) is Some,
    ensures
        t.decode_spec(t.encode_spec(s).unwrap()) == Some(s),
{
    let tm = t.token_map();
    let im = t.id_map();
    let rk = t.ranks();
    lemma_enc_no_specials(t, s, 0, 0, Seq::empty());
    assert(s.subrange(0, s.len() as int) =~= s);
    let pieces = gpt2_pieces(s);
    let bps = pieces.map_values(|p: Seq<char>| byte_level(p));
    let ids = pieces_ids(tm, rk, bps).unwrap();
    assert(t.encode_spec(s) == Some(Seq::<TokenId>::empty() + ids));
    assert(Seq::<TokenId>::empty() + ids =~= ids);
    lemma_pieces_ids_text(tm, im, rk, bps);
    lemma_byte_level_concat(pieces);
    assert(concat(Seq::<Seq<char>>::empty()) == s.take(0));
    lemma_gpt2_text(s, 0, Seq::empty());
    lemma_dec_no_specials(t, ids, 0, Seq::empty());
    assert(ids.subrange(0, ids.len() as int) =~= ids);
    assert(Seq::<char>::empty() + ids_text(im, ids) =~= ids_text(im, ids));
    lemma_byte_level_round_trip(s);
    assert(Seq::<char>::empty() + s =~= s);
}

proof fn lemma_sub_ids_total(vocab: Map<Seq<char>, TokenId>, subs: Seq<Seq<char>>)
    requires
        vocab.contains_key("<unk>"@),
    ensures
        sub_ids(vocab, subs) is Some,
    decreases subs.len(),
{
    if subs.len() > 0 {
        lemma_sub_ids_total(vocab, subs.drop_last());
    }
}

proof fn lemma_pieces_ids_total(vocab: Map<Seq<char>, TokenId>, ranks: Map<Seq<char>, usize>, ps: Seq<Seq<char>>)
    requires
        vocab.contains_key("<unk>"@),
    ensures
        pieces_ids(vocab, ranks, ps) is Some,
    decreases ps.len(),
{
    if ps.len() > 0 {
        lemma_pieces_ids_total(vocab, ranks, ps.drop_last());
        lemma_sub_ids_total(vocab, bpe_word(ps.last(), ranks));
    }
}

proof fn lemma_special_scan_fits(specials: Seq<(Seq<char>, TokenId)>, s: Seq<char>, i: int, k: int, best: Option<(Seq<char>, TokenId)>)
    requires
        best matches Some(b) ==> b.0.len() > 0 && i + b.0.len() <= s.len(),
    ensures
        special_scan(specials, s, i, k, best) matches Some(r) ==> r.0.len() > 0 && i + r.0.len() <= s.len(),
    decreases specials.len() - k,
{
    if 0 <= k < specials.len() {
        let (t, id) = specials[k];
        if t.len() > 0 && i + t.len() <= s.len() && s.subrange(i, i + t.len()) == t && (best is None
            || t.len() >= best.unwrap().0.len()) {
            lemma_special_scan_fits(specials, s, i, k + 1, Some((t, id)));
        } else {
            lemma_special_scan_fits(specials, s, i, k + 1, best);
        }
    }
}

proof fn lemma_enc_from_total(t: BpeTokenizer, s: Seq<char>, i: int, start: int, acc: Seq<TokenId>)
    requires
        t.token_map().contains_key("<unk>"@),
    ensures
        t.enc_from(s, i, start, acc) is Some,
    decreases s.len() - i,
{
    if 0 <= i < s.len() {
        lemma_special_scan_fits(t.specials_model(), s, i, 0, None);
        match special_at(t.specials_model(), s, i) {
            Some((tok, id)) => {
                lemma_pieces_ids_total(t.token_map(), t.ranks(), t.pieces_of(s.subrange(start, i)));
                let x = t.segment_ids(s.subrange(start, i)).unwrap();
                lemma_enc_from_total(t, s, i + tok.len(), i + tok.len(), acc + x.push(id));
            },
            None => {
                lemma_enc_from_total(t, s, i + 1, start, acc);
            },
        }
    } else {
        lemma_pieces_ids_total(t.token_map(), t.ranks(), t.pieces_of(s.subrange(start, s.len() as int)));
    }
}

/// A BPE tokenizer whose vocabulary has `<unk>` encodes every text: each
/// sub-word without an id of its own becomes `<unk>`.
pub proof fn lemma_unk_encodes_everything(t: BpeTokenizer, s: Seq<char>)
    requires
        t.token_map().contains_key("<unk>"@),
    ensures
        t.encode_spec(s) is Some,
{
    lemma_enc_from_total(t, s, 0, 0, Seq::empty());
}

/// A special token's id decodes back to exactly the token's text.
pub proof fn lemma_special_id_decodes(t: BpeTokenizer, id: TokenId)
    requires
        crate::bpe::special_text(t.specials_model(), id) is Some,
    ensures
        t.decode_spec(seq![id]) == crate::bpe::special_text(t.specials_model(), id),
{
    let e = Seq::<char>::empty();
    assert(e.map_values(|c: char| crate::pretokenize::char_byte(c).unwrap()) =~= Seq::<u8>::empty());
    assert(crate::pretokenize::from_byte_level(e) == Some(e)) by {
        assert(vstd::utf8::decode_utf8(Seq::<u8>::empty()) =~= e);
    }
    let txt = crate::bpe::special_text(t.specials_model(), id).unwrap();
    let ids = seq![id];
    assert(ids[0] == id);
    assert(t.dec_from(ids, 1, e, e + e + txt) == Some(e + e + txt + e));
    assert(t.dec_from(ids, 0, e, e) == t.dec_from(ids, 1, e, e + e + txt));
    assert(e + e + txt + e =~= txt);
    assert(t.decode_spec(ids) == t.dec_from(ids, 0, e, e));
}

/// The special-token list decodes each of its ids back to its text.
pub open spec fn specials_consistent(sp: Seq<(Seq<char>, TokenId)>) -> bool {
    forall|k: int| 0 <= k < sp.len() ==> special_text(sp, (#[trigger] sp[k]).1) == Some(sp[k].0)
}

/// No vocabulary id is also a special token's id.
pub open spec fn vocab_ids_plain(tm: Map<Seq<char>, TokenId>, sp: Seq<(Seq<char>, TokenId)>) -> bool {
    forall|tok: Seq<char>| #[trigger] tm.contains_key(tok) ==> special_text(sp, tm[tok]) is None
}

proof fn lemma_special_scan_props(sp: Seq<(Seq<char>, TokenId)>, s: Seq<char>, i: int, k: int, best: Option<(Seq<char>, TokenId)>)
    requires
        0 <= k,
        best matches Some(b) ==> b.0.len() > 0 && i + b.0.len() <= s.len() && s.subrange(i, i + b.0.len()) == b.0
            && exists|j: int| 0 <= j < sp.len() && sp[j] == b,
    ensures
        special_scan(sp, s, i, k, best) matches Some(r) ==> r.0.len() > 0 && i + r.0.len() <= s.len()
            && s.subrange(i, i + r.0.len()) == r.0 && exists|j: int| 0 <= j < sp.len() && sp[j] == r,
    decreases sp.len() - k,
{
    if k < sp.len() {
        let (t, id) = sp[k];
        if t.len() > 0 && i + t.len() <= s.len() && s.subrange(i, i + t.len()) == t && (best is None
            || t.len() >= best.unwrap().0.len()) {
            assert(sp[k] == (t, id));
            lemma_special_scan_props(sp, s, i, k + 1, Some((t, id)));
        } else {
            lemma_special_scan_props(sp, s, i, k + 1, best);
        }
    }
}

/// Sub-word ids of a vocabulary without `<unk>` are never special ids.
proof fn lemma_sub_ids_plain(tm: Map<Seq<char>, TokenId>, sp: Seq<(Seq<char>, TokenId)>, subs: Seq<Seq<char>>)
    requires
        !tm.contains_key("<unk>"@),
        vocab_ids_plain(tm, sp),
        sub_ids(tm, subs) is Some,
    ensures
        forall|k: int| 0 <= k < sub_ids(tm, subs).unwrap().len() ==> special_text(sp, #[trigger] sub_ids(tm, subs).unwrap()[k]) is None,
    decreases subs.len(),
{
    if subs.len() > 0 {
        lemma_sub_ids_plain(tm, sp, subs.drop_last());
        let x = sub_ids(tm, subs).unwrap();
        let p = sub_ids(tm, subs.drop_last()).unwrap();
        assert(x == p.push(tm[subs.last()]));
        assert(tm.contains_key(subs.last()));
        assert forall|k: int| 0 <= k < x.len() implies special_text(sp, #[trigger] x[k]) is None by {
            if k < p.len() {
                assert(x[k] == p[k]);
            }
        }
    }
}

proof fn lemma_pieces_ids_plain(tm: Map<Seq<char>, TokenId>, rk: Map<Seq<char>, usize>, sp: Seq<(Seq<char>, TokenId)>, ps: Seq<Seq<char>>)
    requires
        !tm.contains_key("<unk>"@),
        vocab_ids_plain(tm, sp),
        pieces_ids(tm, rk, ps) is Some,
    ensures
        forall|k: int| 0 <= k < pieces_ids(tm, rk, ps).unwrap().len() ==> special_text(sp, #[trigger] pieces_ids(tm, rk, ps).unwrap()[k]) is None,
    decreases ps.len(),
{
    if ps.len() > 0 {
        lemma_pieces_ids_plain(tm, rk, sp, ps.drop_last());
        let p = pieces_ids(tm, rk, ps.drop_last()).unwrap();
        let subs = bpe_word(ps.last(), rk);
        lemma_sub_ids_plain(tm, sp, subs);
        let x = sub_ids(tm, subs).unwrap();
        let all = pieces_ids(tm, rk, ps).unwrap();
        assert(all == p + x);
        assert forall|k: int| 0 <= k < all.len() implies special_text(sp, #[trigger] all[k]) is None by {
            if k < p.len() {
                assert(all[k] == p[k]);
            } else {
                assert(all[k] == x[k - p.len()]);
            }
        }
    }
}

/// Decoding a run of plain ids only gathers their text.
proof fn lemma_dec_plain(t: BpeTokenizer, all: Seq<TokenId>, k: int, n: int, pending: Seq<char>, a: Seq<char>)
    requires
        0 <= k,
        0 <= n,
        k + n <= all.len(),
        forall|q: int| k <= q < k + n ==> special_text(t.specials_model(), #[trigger] all[q]) is None
            && t.id_map().contains_key(all[q]),
    ensures
        t.dec_from(all, k, pending, a) == t.dec_from(all, k + n, pending + ids_text(t.id_map(), all.subrange(k, k + n)), a),
    decreases n,
{
    let im = t.id_map();
    if n == 0 {
        assert(all.subrange(k, k) =~= Seq::<TokenId>::empty());
        assert(pending + ids_text(im, Seq::<TokenId>::empty()) =~= pending);
    } else {
        assert(special_text(t.specials_model(), all[k]) is None && im.contains_key(all[k]));
        lemma_dec_plain(t, all, k + 1, n - 1, pending + im[all[k]], a);
        let rest = all.subrange(k + 1, k + n);
        assert(all.subrange(k, k + n) =~= seq![all[k]] + rest);
        lemma_ids_text_append(im, seq![all[k]], rest);
        assert(seq![all[k]].drop_last() =~= Seq::<TokenId>::empty());
        assert(ids_text(im, Seq::<TokenId>::empty()) =~= Seq::<char>::empty());
        assert(seq![all[k]].last() == all[k]);
        assert(ids_text(im, seq![all[k]]) =~= im[all[k]]);
        assert(pending + im[all[k]] + ids_text(im, rest) =~= pending + ids_text(im, all.subrange(k, k + n)));
    }
}

/// The ids of a stretch of plain text are plain, and their text is the
/// stretch in the byte-level alphabet.
proof fn lemma_segment(t: BpeTokenizer, seg: Seq<char>)
    requires
        t.is_byte_level(),
        !t.token_map().contains_key("<unk>"@),
        forall|tok: Seq<char>| #[trigger] t.token_map().contains_key(tok) ==> t.id_map().contains_key(
            t.token_map()[tok],
        ) && t.id_map()[t.token_map()[tok]] == tok,
        vocab_ids_plain(t.token_map(), t.specials_model()),
        t.segment_ids(seg) is Some,
    ensures
        ids_text(t.id_map(), t.segment_ids(seg).unwrap()) == byte_level(seg),
        forall|q: int| 0 <= q < t.segment_ids(seg).unwrap().len() ==> special_text(t.specials_model(), #[trigger] t.segment_ids(seg).unwrap()[q]) is None
            && t.id_map().contains_key(t.segment_ids(seg).unwrap()[q]),
{
    let tm = t.token_map();
    let im = t.id_map();
    let rk = t.ranks();
    let pieces = gpt2_pieces(seg);
    let bps = pieces.map_values(|p: Seq<char>| byte_level(p));
    lemma_pieces_ids_text(tm, im, rk, bps);
    lemma_pieces_ids_plain(tm, rk, t.specials_model(), bps);
    lemma_byte_level_concat(pieces);
    assert(concat(Seq::<Seq<char>>::empty()) == seg.take(0));
    lemma_gpt2_text(seg, 0, Seq::empty());
}

/// Decoding the ids that encoding produced from position `i` (with the
/// current plain stretch starting at `start`) appends the rest of the text.
#[verifier::spinoff_prover]
#[verifier::rlimit(100)]
proof fn lemma_enc_dec(t: BpeTokenizer, s: Seq<char>, i: int, start: int, acc: Seq<TokenId>, a: Seq<char>)
    requires
        t.is_byte_level(),
        !t.token_map().contains_key("<unk>"@),
        forall|tok: Seq<char>| #[trigger] t.token_map().contains_key(tok) ==> t.id_map().contains_key(
            t.token_map()[tok],
        ) && t.id_map()[t.token_map()[tok]] == tok,
        vocab_ids_plain(t.token_map(), t.specials_model()),
        specials_consistent(t.specials_model()),
        0 <= start <= i <= s.len(),
        t.enc_from(s, i, start, acc) is Some,
    ensures
        t.enc_from(s, i, start, acc).unwrap().len() >= acc.len(),
        t.enc_from(s, i, start, acc).unwrap().subrange(0, acc.len() as int) == acc,
        t.dec_from(t.enc_from(s, i, start, acc).unwrap(), acc.len() as int, Seq::empty(), a) == Some(
            a + s.subrange(start, s.len() as int),
        ),
    decreases s.len() - i,
{
    let sp = t.specials_model();
    let im = t.id_map();
    let e = Seq::<char>::empty();
    if i == s.len() {
        let seg = s.subrange(start, s.len() as int);
        let x = t.segment_ids(seg).unwrap();
        let out = acc + x;
        assert(t.enc_from(s, i, start, acc) == Some(out));
        lemma_segment(t, seg);
        assert(out.subrange(0, acc.len() as int) =~= acc);
        assert(out.subrange(acc.len() as int, (acc.len() + x.len()) as int) =~= x);
        assert forall|q: int| acc.len() <= q < acc.len() + x.len() implies special_text(sp, #[trigger] out[q]) is None
            && im.contains_key(out[q]) by {
            assert(out[q] == x[q - acc.len()]);
        }
        lemma_dec_plain(t, out, acc.len() as int, x.len() as int, e, a);
        assert(e + byte_level(seg) =~= byte_level(seg));
        lemma_byte_level_round_trip(seg);
        assert(t.dec_from(out, out.len() as int, byte_level(seg), a) == Some(a + seg));
    } else {
        lemma_special_scan_props(sp, s, i, 0, None);
        match special_at(sp, s, i) {
            Some((tok, id)) => {
                let seg = s.subrange(start, i);
                let x = t.segment_ids(seg).unwrap();
                let acc2 = acc + x.push(id);
                let i2 = i + tok.len();
                lemma_enc_dec(t, s, i2, i2, acc2, a + seg + tok);
                let out = t.enc_from(s, i2, i2, acc2).unwrap();
                assert(t.enc_from(s, i, start, acc) == Some(out));
                assert(out.subrange(0, acc2.len() as int) == acc2);
                assert(out.subrange(0, acc.len() as int) =~= acc2.subrange(0, acc.len() as int));
                assert(acc2.subrange(0, acc.len() as int) =~= acc);
                lemma_segment(t, seg);
                assert forall|q: int| acc.len() <= q < acc.len() + x.len() implies special_text(sp, #[trigger] out[q]) is None
                    && im.contains_key(out[q]) by {
                    assert(out[q] == acc2[q]);
                    assert(acc2[q] == x[q - acc.len()]);
                }
                assert(out.subrange(acc.len() as int, (acc.len() + x.len()) as int) =~= acc2.subrange(acc.len() as int, (acc.len() + x.len()) as int));
                assert(acc2.subrange(acc.len() as int, (acc.len() + x.len()) as int) =~= x);
                lemma_dec_plain(t, out, acc.len() as int, x.len() as int, e, a);
                assert(e + byte_level(seg) =~= byte_level(seg));
                let kk = (acc.len() + x.len()) as int;
                assert(out[kk] == acc2[kk]);
                assert(acc2[kk] == id);
                let j = choose|j: int| 0 <= j < sp.len() && sp[j] == (tok, id);
                assert(special_text(sp, sp[j].1) == Some(sp[j].0));
                lemma_byte_level_round_trip(seg);
                assert(t.dec_from(out, kk, byte_level(seg), a) == t.dec_from(out, kk + 1, e, a + seg + tok));
                assert(s.subrange(i, i2) == tok);
                assert(a + seg + tok + s.subrange(i2, s.len() as int) =~= a + s.subrange(start, s.len() as int));
            },
            None => {
                lemma_enc_dec(t, s, i + 1, start, acc, a);
            },
        }
    }
}

/// Byte-level BPE round trip: when the vocabulary has no `<unk>`, maps
/// every id back to its token, shares no id with a special token, and each
/// special token's id decodes to that token, decoding the ids of any text
/// that encodes gives the text back, special tokens included.
pub proof fn lemma_bpe_round_trip_with_specials(t: BpeTokenizer, s: Seq<char>)
    requires
        t.is_byte_level(),
        !t.token_map().contains_key("<unk>"@),
        forall|tok: Seq<char>| #[trigger] t.token_map().contains_key(tok) ==> t.id_map().contains_key(
            t.token_map()[tok],
        ) && t.id_map()[t.token_map()[tok]] == tok,
        vocab_ids_plain(t.token_map(), t.specials_model()),
        specials_consistent(t.specials_model()),
        t.encode_spec(s) is Some,
    ensures
        t.decode_spec(t.encode_spec(s).unwrap()) == Some(s),
{
    lemma_enc_dec(t, s, 0, 0, Seq::empty(), Seq::empty());
    assert(s.subrange(0, s.len() as int) =~= s);
    assert(Seq::<char>::empty() + s =~= s);
}


proof fn lemma_sub_ids_unknown(vocab: Map<Seq<char>, TokenId>, subs: Seq<Seq<char>>)
    ensures
        sub_ids(vocab, subs) is None <==> first_unknown(vocab, subs) is Some,
        first_unknown(vocab, subs) matches Some(u) ==> id_for(vocab, u) is None,
    decreases subs.len(),
{
    if subs.len() > 0 {
        lemma_sub_ids_unknown(vocab, subs.drop_last());
    }
}

proof fn lemma_pieces_ids_unknown(vocab: Map<Seq<char>, TokenId>, ranks: Map<Seq<char>, usize>, ps: Seq<Seq<char>>)
    ensures
        pieces_ids(vocab, ranks, ps) is None <==> pieces_unknown(vocab, ranks, ps) is Some,
        pieces_unknown(vocab, ranks, ps) matches Some(u) ==> id_for(vocab, u) is None,
    decreases ps.len(),
{
    if ps.len() > 0 {
        lemma_pieces_ids_unknown(vocab, ranks, ps.drop_last());
        lemma_sub_ids_unknown(vocab, bpe_word(ps.last(), ranks));
    }
}

proof fn lemma_enc_unknown(t: BpeTokenizer, s: Seq<char>, i: int, start: int, acc: Seq<TokenId>)
    requires
        0 <= i,
    ensures
        t.enc_from(s, i, start, acc) is None <==> t.enc_unknown(s, i, start) is Some,
        t.enc_unknown(s, i, start) matches Some(u) ==> id_for(t.token_map(), u) is None,
    decreases s.len() - i,
{
    if i >= s.len() {
        lemma_pieces_ids_unknown(t.token_map(), t.ranks(), t.pieces_of(s.subrange(start, s.len() as int)));
    } else {
        lemma_special_scan_props(t.specials_model(), s, i, 0, None);
        match special_at(t.specials_model(), s, i) {
            Some((tok, id)) => {
                lemma_pieces_ids_unknown(t.token_map(), t.ranks(), t.pieces_of(s.subrange(start, i)));
                match t.segment_ids(s.subrange(start, i)) {
                    Some(x) => lemma_enc_unknown(t, s, i + tok.len(), i + tok.len(), acc + x.push(id)),
                    None => {},
                }
            },
            None => lemma_enc_unknown(t, s, i + 1, start, acc),
        }
    }
}

/// BPE encoding fails exactly when some piece left after merging has no
/// id: when that piece is missing from the vocabulary and the vocabulary has
/// no `<unk>`; the error then names the first such piece.
pub proof fn lemma_bpe_encode_fails_on_unknown(t: BpeTokenizer, s: Seq<char>)
    ensures
        t.encode_spec(s) is None <==> t.enc_unknown(s, 0, 0) is Some,
        t.enc_unknown(s, 0, 0) matches Some(u) ==> !t.token_map().contains_key(u) && !t.token_map().contains_key("<unk>"@),
{
    lemma_enc_unknown(t, s, 0, 0, Seq::empty());
}

} // verus!
