//! Batch encoding, special-token insertion, padding and truncation on top of
//! a [`Tokenizer`]'s raw ids.

use vstd::prelude::*;

use crate::tokenizer::{TokenId, Tokenizer, TokenizerError};

verus! {

/// How a sequence (or batch of sequences) is padded to a common length.
#[derive(Debug, Clone, Copy, PartialEq, Eq, Structural)]
pub enum Padding {
    /// Do not pad.
    Disabled,
    /// Pad every sequence to this length; longer ones are left unchanged.
    Fixed(usize),
    /// Pad every sequence of a batch to the length of the longest one; no
    /// effect on a single sequence.
    Longest,
}

/// How an over-long sequence is shortened.
#[derive(Debug, Clone, Copy, PartialEq, Eq, Structural)]
pub enum Truncation {
    /// Never truncate.
    Disabled,
    /// Truncate to at most this many ids, special tokens included.
    Fixed(usize),
}

impl Default for Padding {
    fn default() -> (p: Self)
        ensures
            p == Padding::Disabled,
    {
        Padding::Disabled
    }
}

impl Default for Truncation {
    fn default() -> (t: Self)
        ensures
            t == Truncation::Disabled,
    {
        Truncation::Disabled
    }
}

/// Configuration for [`TokenizerExt::encode_with`] and
/// [`TokenizerExt::encode_batch`].
#[derive(Debug, Clone, Copy)]
pub struct EncodeConfig {
    bos: Option<TokenId>,
    eos: Option<TokenId>,
    pad: Option<TokenId>,
    padding: Padding,
    truncation: Truncation,
    add_special_tokens: bool,
}

impl Default for EncodeConfig {
    fn default() -> (c: Self)
        ensures
            c.bos_spec() is None,
            c.eos_spec() is None,
            c.pad_spec() is None,
            c.padding_spec() == Padding::Disabled,
            c.truncation_spec() == Truncation::Disabled,
            !c.adds_special(),
    {
        EncodeConfig::new()
    }
}

impl EncodeConfig {
    /// The beginning-of-sequence id.
    pub closed spec fn bos_spec(self) -> Option<TokenId> {
        self.bos
    }

    /// The end-of-sequence id.
    pub closed spec fn eos_spec(self) -> Option<TokenId> {
        self.eos
    }

    /// The padding id.
    pub closed spec fn pad_spec(self) -> Option<TokenId> {
        self.pad
    }

    /// The padding strategy.
    pub closed spec fn padding_spec(self) -> Padding {
        self.padding
    }

    /// The truncation strategy.
    pub closed spec fn truncation_spec(self) -> Truncation {
        self.truncation
    }

    /// Whether BOS/EOS are inserted.
    pub closed spec fn adds_special(self) -> bool {
        self.add_special_tokens
    }

    /// A config that adds no special tokens and neither pads nor truncates.
    pub fn new() -> (c: Self)
        ensures
            c.bos_spec() is None,
            c.eos_spec() is None,
            c.pad_spec() is None,
            c.padding_spec() == Padding::Disabled,
            c.truncation_spec() == Truncation::Disabled,
            !c.adds_special(),
    {
        EncodeConfig {
            bos: None,
            eos: None,
            pad: None,
            padding: Padding::Disabled,
            truncation: Truncation::Disabled,
            add_special_tokens: false,
        }
    }

    /// Sets the id to prepend, and enables special-token insertion.
    pub fn with_bos(self, id: TokenId) -> (c: Self)
        ensures
            c.bos_spec() == Some(id),
            c.eos_spec() == self.eos_spec(),
            c.pad_spec() == self.pad_spec(),
            c.padding_spec() == self.padding_spec(),
            c.truncation_spec() == self.truncation_spec(),
            c.adds_special() == true,
    {
        EncodeConfig { bos: Some(id), add_special_tokens: true, ..self }
    }

    /// Sets the id to append, and enables special-token insertion.
    pub fn with_eos(self, id: TokenId) -> (c: Self)
        ensures
            c.bos_spec() == self.bos_spec(),
            c.eos_spec() == Some(id),
            c.pad_spec() == self.pad_spec(),
            c.padding_spec() == self.padding_spec(),
            c.truncation_spec() == self.truncation_spec(),
            c.adds_special() == true,
    {
        EncodeConfig { eos: Some(id), add_special_tokens: true, ..self }
    }

    /// Sets the padding id, needed for any padding other than
    /// [`Padding::Disabled`].
    pub fn with_pad(self, id: TokenId) -> (c: Self)
        ensures
            c.bos_spec() == self.bos_spec(),
            c.eos_spec() == self.eos_spec(),
            c.pad_spec() == Some(id),
            c.padding_spec() == self.padding_spec(),
            c.truncation_spec() == self.truncation_spec(),
            c.adds_special() == self.adds_special(),
    {
        EncodeConfig { pad: Some(id), ..self }
    }

    /// Enables or disables BOS/EOS insertion without changing the ids.
    pub fn add_special_tokens(self, yes: bool) -> (c: Self)
        ensures
            c.bos_spec() == self.bos_spec(),
            c.eos_spec() == self.eos_spec(),
            c.pad_spec() == self.pad_spec(),
            c.padding_spec() == self.padding_spec(),
            c.truncation_spec() == self.truncation_spec(),
            c.adds_special() == yes,
    {
        EncodeConfig { add_special_tokens: yes, ..self }
    }

    /// Sets the padding strategy.
    pub fn padding(self, padding: Padding) -> (c: Self)
        ensures
            c.bos_spec() == self.bos_spec(),
            c.eos_spec() == self.eos_spec(),
            c.pad_spec() == self.pad_spec(),
            c.padding_spec() == padding,
            c.truncation_spec() == self.truncation_spec(),
            c.adds_special() == self.adds_special(),
    {
        EncodeConfig { padding, ..self }
    }

    /// Sets the truncation strategy.
    pub fn truncation(self, truncation: Truncation) -> (c: Self)
        ensures
            c.bos_spec() == self.bos_spec(),
            c.eos_spec() == self.eos_spec(),
            c.pad_spec() == self.pad_spec(),
            c.padding_spec() == self.padding_spec(),
            c.truncation_spec() == truncation,
            c.adds_special() == self.adds_special(),
    {
        EncodeConfig { truncation, ..self }
    }

    /// Number of special tokens this config adds to a sequence.
    pub open spec fn num_special_spec(self) -> nat {
        if !self.adds_special() {
            0
        } else {
            (if self.bos_spec() is Some {
                1nat
            } else {
                0nat
            }) + (if self.eos_spec() is Some {
                1nat
            } else {
                0nat
            })
        }
    }

    /// Number of special tokens this config adds to a sequence.
    pub fn num_special(&self) -> (n: usize)
        ensures
            n == self.num_special_spec(),
    {
        if !self.add_special_tokens {
            return 0;
        }
        let a: usize = if self.bos.is_some() {
            1
        } else {
            0
        };
        let b: usize = if self.eos.is_some() {
            1
        } else {
            0
        };
        a + b
    }
}

/// The result of encoding one sequence with an [`EncodeConfig`].
#[derive(Debug, Clone, PartialEq, Eq)]
pub struct Encoding {
    /// The token ids, including any special and padding tokens.
    pub ids: Vec<TokenId>,
    /// `1` for real (or special) tokens and `0` for padding.
    pub attention_mask: Vec<u32>,
}

impl Encoding {
    /// Length of the (possibly padded) sequence.
    pub fn len(&self) -> (n: usize)
        ensures
            n == self.ids@.len(),
    {
        self.ids.len()
    }

    /// Whether the encoding is empty.
    pub fn is_empty(&self) -> (b: bool)
        ensures
            b == (self.ids@.len() == 0),
    {
        self.ids.len() == 0
    }
}

/// The content ids kept under `cfg`'s truncation, which leaves room for the
/// special tokens.
pub open spec fn truncated(ids: Seq<TokenId>, cfg: EncodeConfig) -> Seq<TokenId> {
    match cfg.truncation_spec() {
        Truncation::Fixed(max) => {
            let room = if max >= cfg.num_special_spec() {
                max - cfg.num_special_spec()
            } else {
                0
            };
            if ids.len() > room {
                ids.take(room)
            } else {
                ids
            }
        },
        Truncation::Disabled => ids,
    }
}

/// The ids of one sequence before padding: BOS, truncated content, EOS,
/// never more than a fixed truncation limit.
pub open spec fn assembled(ids: Seq<TokenId>, cfg: EncodeConfig) -> Seq<TokenId> {
    let pre = if cfg.adds_special() && cfg.bos_spec() is Some {
        seq![cfg.bos_spec().unwrap()]
    } else {
        Seq::empty()
    };
    let post = if cfg.adds_special() && cfg.eos_spec() is Some {
        seq![cfg.eos_spec().unwrap()]
    } else {
        Seq::empty()
    };
    let full = pre + truncated(ids, cfg) + post;
    match cfg.truncation_spec() {
        Truncation::Fixed(max) => if full.len() > max {
            full.take(max as int)
        } else {
            full
        },
        Truncation::Disabled => full,
    }
}

/// `n` copies of `x`.
pub open spec fn repeat(x: u32, n: nat) -> Seq<u32> {
    Seq::new(n, |i: int| x)
}

/// `(ids, mask)` padded up to `target` with `pad` and zeros.
pub open spec fn padded(ids: Seq<TokenId>, mask: Seq<u32>, target: nat, pad: TokenId) -> (
    Seq<TokenId>,
    Seq<u32>,
) {
    if ids.len() >= target {
        (ids, mask)
    } else {
        (ids + repeat(pad, (target - ids.len()) as nat), mask + repeat(0, (target - ids.len()) as nat))
    }
}

/// Builds one [`Encoding`] from raw ids: truncate the content to leave room
/// for specials, insert BOS/EOS, cut the whole to the truncation limit when
/// the specials alone exceed it, and set every mask entry to `1`.
pub fn assemble(raw: Vec<TokenId>, cfg: &EncodeConfig) -> (e: Encoding)
    ensures
        e.ids@ == assembled(raw@, *cfg),
        e.attention_mask@ == repeat(1, e.ids@.len()),
{
    let mut ids = raw;
    if let Truncation::Fixed(max) = cfg.truncation {
        let ns = cfg.num_special();
        let room = if max >= ns {
            max - ns
        } else {
            0
        };
        if ids.len() > room {
            ids.truncate(room);
        }
    }
    let mut out: Vec<TokenId> = Vec::new();
    if cfg.add_special_tokens {
        if let Some(bos) = cfg.bos {
            out.push(bos);
        }
    }
    let ghost pre = out@;
    let mut i: usize = 0;
    while i < ids.len()
        invariant
            i <= ids.len(),
            out@ == pre + ids@.take(i as int),
        decreases ids.len() - i,
    {
        out.push(ids[i]);
        proof {
            assert(ids@.take(i + 1) =~= ids@.take(i as int).push(ids@[i as int]));
        }
        i = i + 1;
    }
    if cfg.add_special_tokens {
        if let Some(eos) = cfg.eos {
            out.push(eos);
        }
    }
    proof {
        assert(ids@.take(ids@.len() as int) =~= ids@);
    }
    if let Truncation::Fixed(max) = cfg.truncation {
        if out.len() > max {
            out.truncate(max);
        }
    }
    let mut mask: Vec<u32> = Vec::new();
    let mut k: usize = 0;
    while k < out.len()
        invariant
            k <= out.len(),
            mask@ == repeat(1, k as nat),
        decreases out.len() - k,
    {
        mask.push(1);
        proof {
            assert(mask@ =~= repeat(1, (k + 1) as nat));
        }
        k = k + 1;
    }
    Encoding { ids: out, attention_mask: mask }
}


/// Pads `enc` up to `target` ids with `pad_id`, extending the attention mask
/// with zeros; no change if it is already at least `target` long.
pub fn pad_to(enc: &mut Encoding, target: usize, pad_id: TokenId)
    ensures
        (final(enc).ids@, final(enc).attention_mask@) == padded(
            old(enc).ids@,
            old(enc).attention_mask@,
            target as nat,
            pad_id,
        ),
{
    if enc.ids.len() >= target {
        return;
    }
    let deficit = target - enc.ids.len();
    let ghost ids0 = enc.ids@;
    let ghost mask0 = enc.attention_mask@;
    let mut k: usize = 0;
    while k < deficit
        invariant
            k <= deficit,
            enc.ids@ == ids0 + repeat(pad_id, k as nat),
            enc.attention_mask@ == mask0 + repeat(0, k as nat),
        decreases deficit - k,
    {
        enc.ids.push(pad_id);
        enc.attention_mask.push(0);
        proof {
            assert(enc.ids@ =~= ids0 + repeat(pad_id, (k + 1) as nat));
            assert(enc.attention_mask@ =~= mask0 + repeat(0, (k + 1) as nat));
        }
        k = k + 1;
    }
}

/// The `(ids, attention_mask)` of an encoding.
pub open spec fn enc_model(e: Encoding) -> (Seq<TokenId>, Seq<u32>) {
    (e.ids@, e.attention_mask@)
}

/// The greatest length among `seqs` (0 for none).
pub open spec fn longest(seqs: Seq<Seq<TokenId>>) -> nat
    decreases seqs.len(),
{
    if seqs.len() == 0 {
        0
    } else {
        let m = longest(seqs.drop_last());
        if seqs.last().len() > m {
            seqs.last().len()
        } else {
            m
        }
    }
}

/// The ids of each encoding.
pub open spec fn ids_of(encs: Seq<Encoding>) -> Seq<Seq<TokenId>> {
    encs.map_values(|e: Encoding| e.ids@)
}

/// The length a batch of id sequences is padded to under `padding`.
pub open spec fn batch_target(seqs: Seq<Seq<TokenId>>, padding: Padding) -> nat {
    match padding {
        Padding::Fixed(n) => n as nat,
        _ => longest(seqs),
    }
}

/// Every sequence is at most `longest` long, and one is that long.
pub proof fn lemma_longest(seqs: Seq<Seq<TokenId>>)
    ensures
        forall|i: int| 0 <= i < seqs.len() ==> #[trigger] seqs[i].len() <= longest(seqs),
        seqs.len() > 0 ==> exists|i: int| 0 <= i < seqs.len() && #[trigger] seqs[i].len() == longest(seqs),
    decreases seqs.len(),
{
    if seqs.len() > 0 {
        let d = seqs.drop_last();
        lemma_longest(d);
        assert forall|i: int| 0 <= i < seqs.len() implies #[trigger] seqs[i].len() <= longest(seqs) by {
            if i < seqs.len() - 1 {
                assert(d[i] == seqs[i]);
            }
        }
        if seqs.last().len() > longest(d) {
            assert(seqs[seqs.len() - 1].len() == longest(seqs));
        } else if seqs.len() > 1 {
            let j = choose|j: int| 0 <= j < d.len() && #[trigger] d[j].len() == longest(d);
            assert(seqs[j] == d[j]);
        } else {
            assert(seqs[0].len() == longest(seqs));
        }
    }
}

/// Applies the batch padding strategy of `cfg` to every encoding.
pub fn apply_padding(encodings: &mut Vec<Encoding>, cfg: &EncodeConfig) -> (r: Result<(), TokenizerError>)
    ensures
        final(encodings)@.len() == old(encodings)@.len(),
        cfg.padding_spec() == Padding::Disabled ==> r is Ok && final(encodings)@ == old(encodings)@,
        cfg.padding_spec() != Padding::Disabled && cfg.pad_spec() is None ==> (r matches Err(
            TokenizerError::MalformedFile(_),
        ) && final(encodings)@ == old(encodings)@),
        cfg.padding_spec() != Padding::Disabled && cfg.pad_spec() is Some ==> r is Ok && forall|i: int|
            0 <= i < old(encodings)@.len() ==> enc_model(#[trigger] final(encodings)@[i]) == padded(
                old(encodings)@[i].ids@,
                old(encodings)@[i].attention_mask@,
                batch_target(ids_of(old(encodings)@), cfg.padding_spec()),
                cfg.pad_spec().unwrap(),
            ),
{
    let target: usize = match cfg.padding {
        Padding::Disabled => {
            return Ok(());
        },
        Padding::Fixed(n) => n,
        Padding::Longest => {
            let mut m: usize = 0;
            let mut k: usize = 0;
            while k < encodings.len()
                invariant
                    k <= encodings.len(),
                    m == longest(ids_of(encodings@.take(k as int))),
                decreases encodings.len() - k,
            {
                proof {
                    assert(ids_of(encodings@.take(k + 1)).drop_last() =~= ids_of(encodings@.take(k as int)));
                }
                if encodings[k].ids.len() > m {
                    m = encodings[k].ids.len();
                }
                k = k + 1;
            }
            proof {
                assert(encodings@.take(encodings@.len() as int) =~= encodings@);
            }
            m
        },
    };
    let pad_id = match cfg.pad {
        Some(p) => p,
        None => {
            return Err(TokenizerError::MalformedFile(
                "padding requested without a pad token id (call EncodeConfig::with_pad)".to_owned(),
            ));
        },
    };
    let ghost orig = encodings@;
    let mut i: usize = 0;
    while i < encodings.len()
        invariant
            i <= encodings.len(),
            encodings@.len() == orig.len(),
            target == batch_target(ids_of(orig), cfg.padding_spec()),
            forall|j: int| i <= j < orig.len() ==> #[trigger] encodings@[j] == orig[j],
            forall|j: int|
                0 <= j < i ==> enc_model(#[trigger] encodings@[j]) == padded(
                    orig[j].ids@,
                    orig[j].attention_mask@,
                    target as nat,
                    pad_id,
                ),
        decreases encodings.len() - i,
    {
        let mut e = encodings.remove(i);
        pad_to(&mut e, target, pad_id);
        encodings.insert(i, e);
        i = i + 1;
    }
    Ok(())
}

/// Every sequence of a batch padded to the longest one ends up exactly
/// that long, ids and mask alike.
pub proof fn lemma_longest_padding_equalizes(seqs: Seq<Seq<TokenId>>, masks: Seq<Seq<u32>>, pad: TokenId, i: int)
    requires
        0 <= i < seqs.len(),
        masks.len() == seqs.len(),
        forall|k: int| 0 <= k < seqs.len() ==> #[trigger] masks[k].len() == seqs[k].len(),
    ensures
        padded(seqs[i], masks[i], longest(seqs), pad).0.len() == longest(seqs),
        padded(seqs[i], masks[i], longest(seqs), pad).1.len() == longest(seqs),
{
    lemma_longest(seqs);
    assert(masks[i].len() == seqs[i].len());
}

/// Fixed truncation bounds the assembled length, special tokens included.
pub proof fn lemma_truncation_bound(ids: Seq<TokenId>, cfg: EncodeConfig, max: usize)
    requires
        cfg.truncation_spec() == Truncation::Fixed(max),
    ensures
        assembled(ids, cfg).len() <= max,
{
}

/// A config that adds nothing keeps the raw ids.
pub proof fn lemma_plain_config_keeps_ids(ids: Seq<TokenId>, cfg: EncodeConfig)
    requires
        !cfg.adds_special(),
        cfg.truncation_spec() == Truncation::Disabled,
    ensures
        assembled(ids, cfg) == ids,
{
    assert(Seq::<TokenId>::empty() + ids + Seq::<TokenId>::empty() =~= ids);
}

/// What [`TokenizerExt::encode_with`] gives for raw ids `ids`: `None` when
/// fixed padding is asked for without a pad id.
pub open spec fn encode_with_spec(ids: Seq<TokenId>, cfg: EncodeConfig) -> Option<(Seq<TokenId>, Seq<u32>)> {
    let a = assembled(ids, cfg);
    match cfg.padding_spec() {
        Padding::Fixed(n) => match cfg.pad_spec() {
            Some(p) => Some(padded(a, repeat(1, a.len()), n as nat, p)),
            None => None,
        },
        _ => Some((a, repeat(1, a.len()))),
    }
}

/// The ids each text of a batch assembles to before padding.
pub open spec fn batch_raw<T: Tokenizer + ?Sized>(t: &T, texts: Seq<&str>, cfg: EncodeConfig) -> Seq<Seq<TokenId>> {
    Seq::new(texts.len(), |i: int| assembled(t.encode_spec(texts[i]@).unwrap(), cfg))
}

/// Encoding with special tokens, truncation, padding and batching, for
/// every [`Tokenizer`].
pub trait TokenizerExt: Tokenizer {
    /// Encodes one sequence, applying special-token insertion, truncation
    /// and fixed padding from `cfg` ([`Padding::Longest`] has no effect on a
    /// single sequence).
    fn encode_with(&self, text: &str, cfg: &EncodeConfig) -> (r: Result<Encoding, TokenizerError>)
        ensures
            match self.encode_spec(text@) {
                None => r matches Err(e) && self.encode_error(text@, e),
                Some(ids) => match encode_with_spec(ids, *cfg) {
                    Some(m) => r matches Ok(e) && enc_model(e) == m,
                    None => r matches Err(TokenizerError::MalformedFile(_)),
                },
            },
    {
        let ids = self.encode(text)?;
        let mut enc = assemble(ids, cfg);
        if let Padding::Fixed(n) = cfg.padding_spec_exec() {
            let pad_id = match cfg.pad_exec() {
                Some(p) => p,
                None => {
                    return Err(TokenizerError::MalformedFile(
                        "padding requested without a pad token id (call EncodeConfig::with_pad)".to_owned(),
                    ));
                },
            };
            pad_to(&mut enc, n, pad_id);
        }
        Ok(enc)
    }

    /// Encodes a batch, applying special tokens and truncation to each
    /// sequence and then the batch padding strategy across all of them.
    fn encode_batch(&self, texts: &[&str], cfg: &EncodeConfig) -> (r: Result<Vec<Encoding>, TokenizerError>)
        ensures
            (exists|i: int| 0 <= i < texts@.len() && self.encode_spec((#[trigger] texts@[i])@) is None) ==> r is Err,
            (forall|i: int| 0 <= i < texts@.len() ==> self.encode_spec((#[trigger] texts@[i])@) is Some) ==> (
            r is Ok <==> (cfg.padding_spec() == Padding::Disabled || cfg.pad_spec() is Some)),
            r matches Err(e) ==> (exists|i: int|
                0 <= i < texts@.len() && self.encode_spec((#[trigger] texts@[i])@) is None
                    && (forall|j: int| 0 <= j < i ==> self.encode_spec((#[trigger] texts@[j])@) is Some)
                    && self.encode_error(texts@[i]@, e)) || (e is MalformedFile && forall|i: int|
                0 <= i < texts@.len() ==> self.encode_spec((#[trigger] texts@[i])@) is Some),
            r matches Ok(v) ==> v@.len() == texts@.len(),
            r matches Ok(v) ==> forall|i: int|
                0 <= i < texts@.len() ==> enc_model(#[trigger] v@[i]) == if cfg.padding_spec()
                    == Padding::Disabled {
                    (batch_raw(self, texts@, *cfg)[i], repeat(1, batch_raw(self, texts@, *cfg)[i].len()))
                } else {
                    padded(
                        batch_raw(self, texts@, *cfg)[i],
                        repeat(1, batch_raw(self, texts@, *cfg)[i].len()),
                        batch_target(batch_raw(self, texts@, *cfg), cfg.padding_spec()),
                        cfg.pad_spec().unwrap(),
                    )
                },
    {
        let mut encodings: Vec<Encoding> = Vec::new();
        let mut k: usize = 0;
        while k < texts.len()
            invariant
                k <= texts.len(),
                encodings@.len() == k,
                forall|i: int| 0 <= i < k ==> #[trigger] encodings@[i].ids@ == assembled(self.encode_spec(texts@[i]@).unwrap(), *cfg)
                    && encodings@[i].attention_mask@ == repeat(1, encodings@[i].ids@.len()) && self.encode_spec(texts@[i]@) is Some,
                forall|i: int| 0 <= i < k ==> self.encode_spec((#[trigger] texts@[i])@) is Some,
            decreases texts.len() - k,
        {
            let ids = match self.encode(texts[k]) {
                Ok(ids) => ids,
                Err(e) => {
                    assert(self.encode_spec(texts@[k as int]@) is None);
                    return Err(e);
                },
            };
            encodings.push(assemble(ids, cfg));
            k = k + 1;
        }
        let ghost raw = encodings@;
        proof {
            assert(ids_of(raw) =~= batch_raw(self, texts@, *cfg));
        }
        apply_padding(&mut encodings, cfg)?;
        Ok(encodings)
    }
}

impl<T: Tokenizer + ?Sized> TokenizerExt for T {
}

impl EncodeConfig {
    /// The padding strategy.
    pub fn padding_spec_exec(&self) -> (p: Padding)
        ensures
            p == self.padding_spec(),
    {
        self.padding
    }

    /// The padding id.
    pub fn pad_exec(&self) -> (p: Option<TokenId>)
        ensures
            p == self.pad_spec(),
    {
        self.pad
    }
}

} // verus!
