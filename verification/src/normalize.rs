//! Unicode normalization (NFC / NFD / NFKC / NFKD) applied before
//! tokenization, computed by the `unicode-normalization` crate.

use vstd::prelude::*;
use unicode_normalization::UnicodeNormalization;

verus! {

/// A Unicode normalization form.
#[derive(Debug, Clone, Copy, PartialEq, Eq, Structural)]
pub enum NormalizationForm {
    /// Canonical decomposition followed by canonical composition (NFC).
    Nfc,
    /// Canonical decomposition (NFD).
    Nfd,
    /// Compatibility decomposition followed by canonical composition (NFKC).
    Nfkc,
    /// Compatibility decomposition (NFKD).
    Nfkd,
}

/// The NFC form of `text`, as `unicode-normalization` computes it.
pub uninterp spec fn nfc_of(text: Seq<char>) -> Seq<char>;

/// The NFD form of `text`, as `unicode-normalization` computes it.
pub uninterp spec fn nfd_of(text: Seq<char>) -> Seq<char>;

/// The NFKC form of `text`, as `unicode-normalization` computes it.
pub uninterp spec fn nfkc_of(text: Seq<char>) -> Seq<char>;

/// The NFKD form of `text`, as `unicode-normalization` computes it.
pub uninterp spec fn nfkd_of(text: Seq<char>) -> Seq<char>;

/// Every character of `text` is ASCII; such text is left unchanged by all
/// four normalization forms.
pub open spec fn ascii_only(text: Seq<char>) -> bool {
    forall|i: int| 0 <= i < text.len() ==> (text[i] as u32) < 0x80
}

/// `text` in normalization form `form`.
pub open spec fn normalized(text: Seq<char>, form: NormalizationForm) -> Seq<char> {
    match form {
        NormalizationForm::Nfc => nfc_of(text),
        NormalizationForm::Nfd => nfd_of(text),
        NormalizationForm::Nfkc => nfkc_of(text),
        NormalizationForm::Nfkd => nfkd_of(text),
    }
}

/// `UnicodeNormalization::nfc` on a `&str`, collected; ASCII text is
/// returned unchanged, and the result is in NFC (the crate follows Unicode
/// Standard Annex #15, whose forms are stable), so normalizing it again
/// gives it back.
#[verifier::external_body]
fn nfc_string(text: &str) -> (r: String)
    ensures
        r@ == nfc_of(text@),
        ascii_only(text@) ==> r@ == text@,
        nfc_of(r@) == r@,
{
    text.nfc().collect()
}

/// `UnicodeNormalization::nfd` on a `&str`, collected; ASCII text is
/// returned unchanged, and the result is in NFD (the crate follows Unicode
/// Standard Annex #15, whose forms are stable), so normalizing it again
/// gives it back.
#[verifier::external_body]
fn nfd_string(text: &str) -> (r: String)
    ensures
        r@ == nfd_of(text@),
        ascii_only(text@) ==> r@ == text@,
        nfd_of(r@) == r@,
{
    text.nfd().collect()
}

/// `UnicodeNormalization::nfkc` on a `&str`, collected; ASCII text is
/// returned unchanged, and the result is in NFKC (the crate follows Unicode
/// Standard Annex #15, whose forms are stable), so normalizing it again
/// gives it back.
#[verifier::external_body]
fn nfkc_string(text: &str) -> (r: String)
    ensures
        r@ == nfkc_of(text@),
        ascii_only(text@) ==> r@ == text@,
        nfkc_of(r@) == r@,
{
    text.nfkc().collect()
}

/// `UnicodeNormalization::nfkd` on a `&str`, collected; ASCII text is
/// returned unchanged, and the result is in NFKD (the crate follows Unicode
/// Standard Annex #15, whose forms are stable), so normalizing it again
/// gives it back.
#[verifier::external_body]
fn nfkd_string(text: &str) -> (r: String)
    ensures
        r@ == nfkd_of(text@),
        ascii_only(text@) ==> r@ == text@,
        nfkd_of(r@) == r@,
{
    text.nfkd().collect()
}

/// Normalizes `text` to `form`; normalizing the result again to the same
/// form leaves it unchanged.
pub fn normalize(text: &str, form: NormalizationForm) -> (r: String)
    ensures
        r@ == normalized(text@, form),
        ascii_only(text@) ==> r@ == text@,
        normalized(r@, form) == r@,
{
    match form {
        NormalizationForm::Nfc => nfc_string(text),
        NormalizationForm::Nfd => nfd_string(text),
        NormalizationForm::Nfkc => nfkc_string(text),
        NormalizationForm::Nfkd => nfkd_string(text),
    }
}

} // verus!
