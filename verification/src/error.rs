//! The errors of the patching steps and the messages they are shown with.
use vstd::prelude::*;
use crate::text::{append_decimal, dec, owned};

verus! {

/// Size in bytes of the packed slot in the data file.
pub const PACKED_SIZE: usize = 0x5FB3;

/// Size of the slot's contents once decompressed.
pub const EXPECTED_UNPACKED_SIZE: usize = 181_669;

/// Why a step failed, with what its message needs.
pub enum PatchError {
    /// The replacement is not exactly 16 ASCII characters.
    BadReplacement { replacement: String, len: usize },
    /// zlib compression (flate2) failed; `detail` is the I/O error's text.
    Flate2 { detail: String },
    /// A Zopfli candidate failed.
    Zopfli { name: String, detail: String },
    /// A candidate does not decompress as zlib.
    NotZlib { name: String, detail: String },
    /// A candidate decompresses to other data than was compressed.
    RoundtripMismatch { name: String },
    /// No candidate fits the slot; the smallest one is named.
    NoFit { patch_set: String, compression: String, size: usize },
    /// No patch set gave a usable result.
    NothingPrepared,
    /// The file is shorter than the slot's end.
    FileTooSmall,
    /// The slot does not decompress as zlib.
    SlotNotZlib { detail: String },
    /// The slot decompresses to another size than expected.
    UnexpectedSize { size: usize },
    /// No target placeholder is present and the data does not look patched.
    NoPlaceholders,
    /// The slot read back from disk does not decompress.
    VerifyNotZlib { detail: String },
    /// The slot read back from disk differs from the patched data.
    VerifyMismatch,
    /// Target placeholders remain in the slot read back from disk.
    StillPresent,
}

/// `a.saturating_sub(b)`.
pub open spec fn saturating_sub(a: int, b: int) -> nat {
    if a >= b {
        (a - b) as nat
    } else {
        0
    }
}

/// The message of an error, as the alternate (`{:#}`) form of its error chain prints it.
pub open spec fn error_text(e: PatchError) -> Seq<char> {
    match e {
        PatchError::BadReplacement { replacement, len } => "Replacement must be exactly 16 ASCII chars: '"@
            + replacement@ + "', len="@ + dec(len as nat),
        PatchError::Flate2 { detail } => detail@,
        PatchError::Zopfli { name, detail } => "Zopfli candidate '"@ + name@ + "' failed: "@ + detail@,
        PatchError::NotZlib { name, detail } => "Candidate '"@ + name@
            + "' does not decompress as zlib: "@ + detail@,
        PatchError::RoundtripMismatch { name } => "Candidate '"@ + name@ + "' roundtrip mismatch"@,
        PatchError::NoFit { patch_set, compression, size } =>
            "Żadna metoda nie zmieściła się w slocie. Najbliżej było: patch set '"@ + patch_set@
            + "', kompresja '"@ + compression@ + "', "@ + dec(size as nat) + " bajtów, czyli o "@
            + dec(saturating_sub(size as int, PACKED_SIZE as int)) + " bajtów za dużo."@,
        PatchError::NothingPrepared => "Nie udało się przygotować poprawnego patcha."@,
        PatchError::FileTooSmall => "Plik jest zbyt mały dla oczekiwanego offsetu i rozmiaru slotu."@,
        PatchError::SlotNotZlib { detail } => "Nie udało się zdekompresować bloku zlib z DV2: "@
            + detail@,
        PatchError::UnexpectedSize { size } => "Nieoczekiwany rozmiar po dekompresji: "@ + dec(
            size as nat,
        ) + ", oczekiwano "@ + dec(EXPECTED_UNPACKED_SIZE as nat)
            + ". To może być inna wersja pliku."@,
        PatchError::NoPlaceholders =>
            "Nie znaleziono docelowych placeholderów DO NOT TRANSLATE. Plik może być już zmieniony albo pochodzić z innej wersji gry."@,
        PatchError::VerifyNotZlib { detail } =>
            "Weryfikacja z dysku: nie udało się zdekompresować zapisanego strumienia: "@ + detail@,
        PatchError::VerifyMismatch =>
            "Weryfikacja z dysku nie zgadza się z danymi patchowanymi w pamięci."@,
        PatchError::StillPresent => "Po zapisie dalej istnieją docelowe DO NOT TRANSLATE. Przerywam."@,
    }
}

impl PatchError {
    /// The error's message.
    pub fn message(&self) -> (s: String)
        ensures
            s@ == error_text(*self),
    {
        match self {
            PatchError::BadReplacement { replacement, len } => {
                let mut s = owned("Replacement must be exactly 16 ASCII chars: '");
                s.append(replacement.as_str());
                s.append("', len=");
                append_decimal(&mut s, *len);
                s
            },
            PatchError::Flate2 { detail } => owned(detail.as_str()),
            PatchError::Zopfli { name, detail } => {
                let mut s = owned("Zopfli candidate '");
                s.append(name.as_str());
                s.append("' failed: ");
                s.append(detail.as_str());
                s
            },
            PatchError::NotZlib { name, detail } => {
                let mut s = owned("Candidate '");
                s.append(name.as_str());
                s.append("' does not decompress as zlib: ");
                s.append(detail.as_str());
                s
            },
            PatchError::RoundtripMismatch { name } => {
                let mut s = owned("Candidate '");
                s.append(name.as_str());
                s.append("' roundtrip mismatch");
                s
            },
            PatchError::NoFit { patch_set, compression, size } => {
                let mut s = owned(
                    "Żadna metoda nie zmieściła się w slocie. Najbliżej było: patch set '",
                );
                s.append(patch_set.as_str());
                s.append("', kompresja '");
                s.append(compression.as_str());
                s.append("', ");
                append_decimal(&mut s, *size);
                s.append(" bajtów, czyli o ");
                let over: usize = if *size >= PACKED_SIZE { *size - PACKED_SIZE } else { 0 };
                append_decimal(&mut s, over);
                s.append(" bajtów za dużo.");
                s
            },
            PatchError::NothingPrepared => owned("Nie udało się przygotować poprawnego patcha."),
            PatchError::FileTooSmall => owned(
                "Plik jest zbyt mały dla oczekiwanego offsetu i rozmiaru slotu.",
            ),
            PatchError::SlotNotZlib { detail } => {
                let mut s = owned("Nie udało się zdekompresować bloku zlib z DV2: ");
                s.append(detail.as_str());
                s
            },
            PatchError::UnexpectedSize { size } => {
                let mut s = owned("Nieoczekiwany rozmiar po dekompresji: ");
                append_decimal(&mut s, *size);
                s.append(", oczekiwano ");
                append_decimal(&mut s, EXPECTED_UNPACKED_SIZE);
                s.append(". To może być inna wersja pliku.");
                s
            },
            PatchError::NoPlaceholders => owned(
                "Nie znaleziono docelowych placeholderów DO NOT TRANSLATE. Plik może być już zmieniony albo pochodzić z innej wersji gry.",
            ),
            PatchError::VerifyNotZlib { detail } => {
                let mut s = owned(
                    "Weryfikacja z dysku: nie udało się zdekompresować zapisanego strumienia: ",
                );
                s.append(detail.as_str());
                s
            },
            PatchError::VerifyMismatch => owned(
                "Weryfikacja z dysku nie zgadza się z danymi patchowanymi w pamięci.",
            ),
            PatchError::StillPresent => owned(
                "Po zapisie dalej istnieją docelowe DO NOT TRANSLATE. Przerywam.",
            ),
        }
    }
}

} // verus!
