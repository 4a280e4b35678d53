//! Minimal GGUF header reader — metadata only, never the tensors.
//!
//! A GGUF file opens with a fixed header and a run of key/value metadata
//! pairs; the (multi-gigabyte) tensor data comes after. Everything the model
//! library needs — architecture, context length, quantization — lives in
//! those KVs, so a few megabytes at most have to be read. The reader works on
//! the bytes that a file begins with: where they end too early it says so,
//! and what it says of enough bytes no further byte can change.
use crate::num::{dec, dec_text};
use crate::text::{chars_of, contains, ends, ends_with, has_text, opt_text, same_text};
use vstd::prelude::*;
use vstd::string::*;

verus! {

/// What the library shows per model file.
#[derive(Debug, Clone, PartialEq)]
pub struct GgufMeta {
    /// `general.architecture` — "llama", "qwen3", …
    pub architecture: Option<String>,
    /// `general.name` — the model's self-declared name.
    pub name: Option<String>,
    /// `<arch>.context_length` — the training context window.
    pub context_length: Option<u64>,
    /// Human name for `general.file_type` (Q4_K_M, Q5_K_XL, …).
    pub quantization: Option<String>,
    /// `general.size_label` when present ("27B", "8x7B", …).
    pub size_label: Option<String>,
    /// Multi-token-prediction layers present (tensor names containing
    /// ".nextn."). Capability shipped in the file — whether the installed
    /// llama.cpp exploits it is a separate (build-version) question.
    pub has_mtp: bool,
}

pub struct GgufMetaView {
    pub architecture: Option<Seq<char>>,
    pub name: Option<Seq<char>>,
    pub context_length: Option<u64>,
    pub quantization: Option<Seq<char>>,
    pub size_label: Option<Seq<char>>,
    pub has_mtp: bool,
}

impl View for GgufMeta {
    type V = GgufMetaView;

    open spec fn view(&self) -> GgufMetaView {
        GgufMetaView {
            architecture: opt_text(self.architecture),
            name: opt_text(self.name),
            context_length: self.context_length,
            quantization: opt_text(self.quantization),
            size_label: opt_text(self.size_label),
            has_mtp: self.has_mtp,
        }
    }
}

/// The metadata of a file that states none.
pub open spec fn no_meta() -> GgufMetaView {
    GgufMetaView {
        architecture: None,
        name: None,
        context_length: None,
        quantization: None,
        size_label: None,
        has_mtp: false,
    }
}

impl Default for GgufMeta {
    fn default() -> (r: GgufMeta)
        ensures
            r@ == no_meta(),
    {
        GgufMeta {
            architecture: None,
            name: None,
            context_length: None,
            quantization: None,
            size_label: None,
            has_mtp: false,
        }
    }
}

/// Why a header could not be read.
#[derive(Debug, Clone, Copy, PartialEq, Eq, Structural)]
pub enum GgufError {
    BadMagic,
    UnsupportedVersion(u32),
    ImplausibleCount(u64),
    ImplausibleString(u64),
    UnsupportedElement(u32),
    UnknownType(u32),
    ImplausibleRank(u32),
    /// The metadata ran past the ceiling.
    HeaderTooLong,
    /// The tensor table ran past the ceiling.
    TensorsTooLong,
    /// The bytes ended inside the header.
    Truncated,
}

/// Hard ceiling on how much header we're willing to read. Real metadata
/// (including 150k-entry tokenizer arrays) fits comfortably; a corrupt
/// length field must not make us slurp the tensor blob.
pub const MAX_HEADER_BYTES: u64 = 268_435_456;

/// The longest string that is believed.
pub const MAX_STRING_BYTES: u64 = 67_108_864;

/// The most metadata pairs that are believed.
pub const MAX_KV_COUNT: u64 = 100_000;

pub const MAGIC: u32 = 0x4655_4747;

// GGUF metadata value types.
pub const T_U8: u32 = 0;

pub const T_I8: u32 = 1;

pub const T_U16: u32 = 2;

pub const T_I16: u32 = 3;

pub const T_U32: u32 = 4;

pub const T_I32: u32 = 5;

pub const T_F32: u32 = 6;

pub const T_BOOL: u32 = 7;

pub const T_STRING: u32 = 8;

pub const T_ARRAY: u32 = 9;

pub const T_U64: u32 = 10;

pub const T_I64: u32 = 11;

pub const T_F64: u32 = 12;

impl GgufError {
    pub open spec fn text(self) -> Seq<char> {
        match self {
            GgufError::BadMagic => "not a GGUF file (bad magic)"@,
            GgufError::UnsupportedVersion(v) => "unsupported GGUF version "@ + dec(v as nat),
            GgufError::ImplausibleCount(n) => "implausible metadata count "@ + dec(n as nat),
            GgufError::ImplausibleString(n) => "implausible string length "@ + dec(n as nat),
            GgufError::UnsupportedElement(t) => "unsupported array element type "@ + dec(t as nat),
            GgufError::UnknownType(t) => "unknown GGUF value type "@ + dec(t as nat),
            GgufError::ImplausibleRank(n) => "implausible tensor rank "@ + dec(n as nat),
            GgufError::HeaderTooLong => "metadata exceeded "@ + dec(MAX_HEADER_BYTES as nat)
                + " bytes; refusing to read further"@,
            GgufError::TensorsTooLong => "tensor table exceeded "@ + dec(MAX_HEADER_BYTES as nat)
                + " bytes; refusing to read further"@,
            GgufError::Truncated => "truncated GGUF header"@,
        }
    }

    /// The error in words.
    pub fn message(&self) -> (r: String)
        ensures
            r@ == self.text(),
    {
        let (head, n, rest): (&str, Option<u64>, &str) = match self {
            GgufError::BadMagic => ("not a GGUF file (bad magic)", None, ""),
            GgufError::UnsupportedVersion(v) => ("unsupported GGUF version ", Some(*v as u64), ""),
            GgufError::ImplausibleCount(n) => ("implausible metadata count ", Some(*n), ""),
            GgufError::ImplausibleString(n) => ("implausible string length ", Some(*n), ""),
            GgufError::UnsupportedElement(t) => (
                "unsupported array element type ",
                Some(*t as u64),
                "",
            ),
            GgufError::UnknownType(t) => ("unknown GGUF value type ", Some(*t as u64), ""),
            GgufError::ImplausibleRank(n) => ("implausible tensor rank ", Some(*n as u64), ""),
            GgufError::HeaderTooLong => (
                "metadata exceeded ",
                Some(MAX_HEADER_BYTES),
                " bytes; refusing to read further",
            ),
            GgufError::TensorsTooLong => (
                "tensor table exceeded ",
                Some(MAX_HEADER_BYTES),
                " bytes; refusing to read further",
            ),
            GgufError::Truncated => ("truncated GGUF header", None, ""),
        };
        proof {
            reveal_strlit("");
        }
        let mut s = head.to_owned();
        if let Some(n) = n {
            s.append(dec_text(n).as_str());
            s.append(rest);
        }
        assert(s@ =~= self.text());
        s
    }
}

// ------------------------------------------------------------------ the format

/// The little-endian number of the four bytes at `p`.
pub open spec fn le32(d: Seq<u8>, p: int) -> nat {
    (d[p] + d[p + 1] * 0x100 + d[p + 2] * 0x1_0000 + d[p + 3] * 0x100_0000) as nat
}

/// The little-endian number of the eight bytes at `p`.
pub open spec fn le64(d: Seq<u8>, p: int) -> nat {
    le32(d, p) + le32(d, p + 4) * 0x1_0000_0000
}

/// The number of four bytes at `p`, and the place behind it.
pub open spec fn u32_at(d: Seq<u8>, p: int) -> Result<(u32, int), GgufError> {
    if p + 4 <= d.len() {
        Ok((le32(d, p) as u32, p + 4))
    } else {
        Err(GgufError::Truncated)
    }
}

/// The number of eight bytes at `p`, and the place behind it.
pub open spec fn u64_at(d: Seq<u8>, p: int) -> Result<(u64, int), GgufError> {
    if p + 8 <= d.len() {
        Ok((le64(d, p) as u64, p + 8))
    } else {
        Err(GgufError::Truncated)
    }
}

/// The text that `String::from_utf8_lossy` reads from bytes.
pub uninterp spec fn utf8_lossy(b: Seq<u8>) -> Seq<char>;

/// Calls `String::from_utf8_lossy`, whose result depends on the bytes alone.
#[verifier::external_body]
pub(crate) fn lossy_text(b: &[u8]) -> (r: String)
    ensures
        r@ == utf8_lossy(b@),
{
    String::from_utf8_lossy(b).into_owned()
}

/// The string at `p` — a length and that many bytes — and the place behind it.
pub open spec fn string_at(d: Seq<u8>, p: int) -> Result<(Seq<char>, int), GgufError> {
    match u64_at(d, p) {
        Err(e) => Err(e),
        Ok((len, q)) => if len > MAX_STRING_BYTES {
            Err(GgufError::ImplausibleString(len))
        } else if q + len > d.len() {
            Err(GgufError::Truncated)
        } else {
            Ok((utf8_lossy(d.subrange(q, q + len)), q + len))
        },
    }
}

/// The place `n` bytes behind `p`.
pub open spec fn past(d: Seq<u8>, p: int, n: nat) -> Result<int, GgufError> {
    if p + n <= d.len() {
        Ok(p + n)
    } else {
        Err(GgufError::Truncated)
    }
}

/// How many bytes a value of a fixed-size type takes.
pub open spec fn fixed_size(ty: u32) -> Option<nat> {
    if ty == T_U8 || ty == T_I8 || ty == T_BOOL {
        Some(1)
    } else if ty == T_U16 || ty == T_I16 {
        Some(2)
    } else if ty == T_U32 || ty == T_I32 || ty == T_F32 {
        Some(4)
    } else if ty == T_U64 || ty == T_I64 || ty == T_F64 {
        Some(8)
    } else {
        None
    }
}

/// The place behind a string, which may be of any length.
pub open spec fn past_string(d: Seq<u8>, p: int) -> Result<int, GgufError> {
    match u64_at(d, p) {
        Err(e) => Err(e),
        Ok((len, q)) => past(d, q, len as nat),
    }
}

/// The place behind `count` strings.
pub open spec fn past_strings(d: Seq<u8>, p: int, count: nat) -> Result<int, GgufError>
    decreases count,
{
    if count == 0 {
        Ok(p)
    } else {
        match past_string(d, p) {
            Err(e) => Err(e),
            Ok(q) => past_strings(d, q, (count - 1) as nat),
        }
    }
}

/// The place behind an array: an element type, a count and the elements.
pub open spec fn past_array(d: Seq<u8>, p: int) -> Result<int, GgufError> {
    match u32_at(d, p) {
        Err(e) => Err(e),
        Ok((elem, q)) => match u64_at(d, q) {
            Err(e) => Err(e),
            Ok((count, r)) => match fixed_size(elem) {
                Some(size) => past(d, r, count as nat * size),
                None => if elem == T_STRING {
                    past_strings(d, r, count as nat)
                } else {
                    Err(GgufError::UnsupportedElement(elem))
                },
            },
        },
    }
}

/// The place behind a value of type `ty`.
pub open spec fn past_value(d: Seq<u8>, p: int, ty: u32) -> Result<int, GgufError> {
    match fixed_size(ty) {
        Some(size) => past(d, p, size),
        None => if ty == T_STRING {
            past_string(d, p)
        } else if ty == T_ARRAY {
            past_array(d, p)
        } else {
            Err(GgufError::UnknownType(ty))
        },
    }
}

/// The value at `p` where it is a string.
pub open spec fn text_value(d: Seq<u8>, p: int, ty: u32) -> Result<
    (Option<Seq<char>>, int),
    GgufError,
> {
    if ty == T_STRING {
        match string_at(d, p) {
            Err(e) => Err(e),
            Ok((s, q)) => Ok((Some(s), q)),
        }
    } else {
        match past_value(d, p, ty) {
            Err(e) => Err(e),
            Ok(q) => Ok((None, q)),
        }
    }
}

/// The value at `p` where it is an integer of 32 or 64 bits; a signed one is
/// extended to 64 bits and read as unsigned.
pub open spec fn number_value(d: Seq<u8>, p: int, ty: u32) -> Result<
    (Option<u64>, int),
    GgufError,
> {
    if ty == T_U32 || ty == T_I32 {
        match u32_at(d, p) {
            Err(e) => Err(e),
            Ok((v, q)) => if ty == T_U32 || v < 0x8000_0000 {
                Ok((Some(v as u64), q))
            } else {
                Ok((Some((v + 0xffff_ffff_0000_0000) as u64), q))
            },
        }
    } else if ty == T_U64 || ty == T_I64 {
        match u64_at(d, p) {
            Err(e) => Err(e),
            Ok((v, q)) => Ok((Some(v), q)),
        }
    } else {
        match past_value(d, p, ty) {
            Err(e) => Err(e),
            Ok(q) => Ok((None, q)),
        }
    }
}

/// The quant name users know for a `general.file_type`. Partial by design:
/// unknown values render as `type N` rather than guessing.
pub open spec fn file_type_text(n: u64) -> Seq<char> {
    if n == 0 {
        "F32"@
    } else if n == 1 {
        "F16"@
    } else if n == 2 {
        "Q4_0"@
    } else if n == 3 {
        "Q4_1"@
    } else if n == 7 {
        "Q8_0"@
    } else if n == 8 {
        "Q5_0"@
    } else if n == 9 {
        "Q5_1"@
    } else if n == 10 {
        "Q2_K"@
    } else if n == 11 {
        "Q3_K_S"@
    } else if n == 12 {
        "Q3_K_M"@
    } else if n == 13 {
        "Q3_K_L"@
    } else if n == 14 {
        "Q4_K_S"@
    } else if n == 15 {
        "Q4_K_M"@
    } else if n == 16 {
        "Q5_K_S"@
    } else if n == 17 {
        "Q5_K_M"@
    } else if n == 18 {
        "Q6_K"@
    } else if n == 19 {
        "IQ2_XXS"@
    } else if n == 20 {
        "IQ2_XS"@
    } else if n == 24 {
        "IQ4_NL"@
    } else if n == 25 {
        "IQ4_XS"@
    } else if n == 30 {
        "BF16"@
    } else {
        "type "@ + dec(n as nat)
    }
}

/// What the pairs read so far say.
pub struct Pairs {
    pub meta: GgufMetaView,
    /// The context length that the declared architecture states.
    pub arch_ctx: Option<u64>,
    /// The first context length that any other prefix states.
    pub other_ctx: Option<u64>,
}

/// What one more pair says: its key, its type, and its value at `p`.
pub open spec fn pair_value(d: Seq<u8>, p: int, key: Seq<char>, ty: u32, s: Pairs) -> Result<
    (Pairs, int),
    GgufError,
> {
    if key == "general.architecture"@ {
        match text_value(d, p, ty) {
            Err(e) => Err(e),
            Ok((v, q)) => Ok((Pairs { meta: GgufMetaView { architecture: v, ..s.meta }, ..s }, q)),
        }
    } else if key == "general.name"@ {
        match text_value(d, p, ty) {
            Err(e) => Err(e),
            Ok((v, q)) => Ok((Pairs { meta: GgufMetaView { name: v, ..s.meta }, ..s }, q)),
        }
    } else if key == "general.size_label"@ {
        match text_value(d, p, ty) {
            Err(e) => Err(e),
            Ok((v, q)) => Ok((Pairs { meta: GgufMetaView { size_label: v, ..s.meta }, ..s }, q)),
        }
    } else if key == "general.file_type"@ {
        match number_value(d, p, ty) {
            Err(e) => Err(e),
            Ok((Some(n), q)) => Ok(
                (
                    Pairs {
                        meta: GgufMetaView { quantization: Some(file_type_text(n)), ..s.meta },
                        ..s
                    },
                    q,
                ),
            ),
            Ok((None, q)) => Ok((s, q)),
        }
    } else if ends_with(key, ".context_length"@) {
        match number_value(d, p, ty) {
            Err(e) => Err(e),
            Ok((v, q)) => if v is Some && s.meta.architecture is Some && key
                == s.meta.architecture->0 + ".context_length"@ {
                Ok((Pairs { arch_ctx: v, ..s }, q))
            } else if s.other_ctx is None {
                Ok((Pairs { other_ctx: v, ..s }, q))
            } else {
                Ok((s, q))
            },
        }
    } else {
        match past_value(d, p, ty) {
            Err(e) => Err(e),
            Ok(q) => Ok((s, q)),
        }
    }
}

/// What the pair at `p` says, and the place behind it.
pub open spec fn pair_at(d: Seq<u8>, p: int, s: Pairs) -> Result<(Pairs, int), GgufError> {
    match string_at(d, p) {
        Err(e) => Err(e),
        Ok((key, q)) => match u32_at(d, q) {
            Err(e) => Err(e),
            Ok((ty, r)) => match pair_value(d, r, key, ty, s) {
                Err(e) => Err(e),
                Ok((t, z)) => if z > MAX_HEADER_BYTES {
                    Err(GgufError::HeaderTooLong)
                } else {
                    Ok((t, z))
                },
            },
        },
    }
}

/// What `count` pairs from `p` on say.
pub open spec fn pairs_at(d: Seq<u8>, p: int, count: nat, s: Pairs) -> Result<
    (Pairs, int),
    GgufError,
>
    decreases count,
{
    if count == 0 {
        Ok((s, p))
    } else {
        match pair_at(d, p, s) {
            Err(e) => Err(e),
            Ok((t, q)) => pairs_at(d, q, (count - 1) as nat, t),
        }
    }
}

/// Whether the tensor at `p` belongs to a multi-token-prediction layer, and
/// the place behind its entry: a name, a rank, the dimensions, a type and an
/// offset.
pub open spec fn tensor_at(d: Seq<u8>, p: int) -> Result<(bool, int), GgufError> {
    match string_at(d, p) {
        Err(e) => Err(e),
        Ok((name, q)) => match u32_at(d, q) {
            Err(e) => Err(e),
            Ok((rank, r)) => if rank > 8 {
                Err(GgufError::ImplausibleRank(rank))
            } else {
                match past(d, r, rank as nat * 8 + 12) {
                    Err(e) => Err(e),
                    Ok(z) => if z > MAX_HEADER_BYTES {
                        Err(GgufError::TensorsTooLong)
                    } else {
                        Ok((contains(name, ".nextn."@), z))
                    },
                }
            },
        },
    }
}

/// Whether one of `count` tensors from `p` on belongs to such a layer.
pub open spec fn tensors_at(d: Seq<u8>, p: int, count: nat, found: bool) -> Result<
    bool,
    GgufError,
>
    decreases count,
{
    if count == 0 {
        Ok(found)
    } else {
        match tensor_at(d, p) {
            Err(e) => Err(e),
            Ok((mtp, q)) => tensors_at(d, q, (count - 1) as nat, found || mtp),
        }
    }
}

/// What the header that the bytes begin with says.
pub open spec fn header_of(d: Seq<u8>) -> Result<GgufMetaView, GgufError> {
    match u32_at(d, 0) {
        Err(e) => Err(e),
        Ok((magic, _)) => if magic != MAGIC {
            Err(GgufError::BadMagic)
        } else {
            match u32_at(d, 4) {
                Err(e) => Err(e),
                Ok((version, _)) => if version < 2 || version > 3 {
                    Err(GgufError::UnsupportedVersion(version))
                } else {
                    match u64_at(d, 8) {
                        Err(e) => Err(e),
                        Ok((tensors, _)) => match u64_at(d, 16) {
                            Err(e) => Err(e),
                            Ok((count, p)) => if count > MAX_KV_COUNT {
                                Err(GgufError::ImplausibleCount(count))
                            } else {
                                body_of(d, p, tensors, count)
                            },
                        },
                    }
                },
            }
        },
    }
}

/// What the pairs and the tensor table that begin at `p` say.
pub open spec fn body_of(d: Seq<u8>, p: int, tensors: u64, count: u64) -> Result<
    GgufMetaView,
    GgufError,
> {
    match pairs_at(
        d,
        p,
        count as nat,
        Pairs { meta: no_meta(), arch_ctx: None, other_ctx: None },
    ) {
        Err(e) => Err(e),
        Ok((s, q)) => match tensors_at(d, q, tensors as nat, false) {
            Err(e) => Err(e),
            Ok(found) => Ok(
                GgufMetaView {
                    context_length: if s.arch_ctx is Some {
                        s.arch_ctx
                    } else {
                        s.other_ctx
                    },
                    has_mtp: found,
                    ..s.meta
                },
            ),
        },
    }
}

// ------------------------------------------------------------------ the reader

/// The result of a read at a place, as the format states it.
pub open spec fn read_as<T>(r: Result<(T, usize), GgufError>, want: Result<(T, int), GgufError>) -> bool {
    match (r, want) {
        (Ok((v, q)), Ok((w, z))) => v == w && q as int == z,
        (Err(e), Err(f)) => e == f,
        _ => false,
    }
}

pub open spec fn place_as(r: Result<usize, GgufError>, want: Result<int, GgufError>) -> bool {
    match (r, want) {
        (Ok(q), Ok(z)) => q as int == z,
        (Err(e), Err(f)) => e == f,
        _ => false,
    }
}

fn read_u32(d: &[u8], p: usize) -> (r: Result<(u32, usize), GgufError>)
    requires
        p <= d.len(),
    ensures
        read_as(r, u32_at(d@, p as int)),
        r is Ok ==> r->Ok_0.1 <= d.len() && r->Ok_0.1 == p + 4,
{
    if d.len() - p < 4 {
        return Err(GgufError::Truncated);
    }
    let v: u64 = d[p] as u64 + d[p + 1] as u64 * 0x100 + d[p + 2] as u64 * 0x1_0000 + d[p + 3] as u64
        * 0x100_0000;
    Ok((v as u32, p + 4))
}

fn read_u64(d: &[u8], p: usize) -> (r: Result<(u64, usize), GgufError>)
    requires
        p <= d.len(),
    ensures
        read_as(r, u64_at(d@, p as int)),
        r is Ok ==> r->Ok_0.1 <= d.len() && r->Ok_0.1 == p + 8,
{
    if d.len() - p < 8 {
        return Err(GgufError::Truncated);
    }
    let lo: u64 = match read_u32(d, p) {
        Ok((v, _)) => v as u64,
        Err(e) => {
            return Err(e);
        },
    };
    let hi: u64 = match read_u32(d, p + 4) {
        Ok((v, _)) => v as u64,
        Err(e) => {
            return Err(e);
        },
    };
    assert(le32(d@, p as int) <= u32::MAX && le32(d@, p + 4) <= u32::MAX);
    Ok((lo + hi * 0x1_0000_0000, p + 8))
}

fn read_string(d: &[u8], p: usize) -> (r: Result<(String, usize), GgufError>)
    requires
        p <= d.len(),
    ensures
        match (r, string_at(d@, p as int)) {
            (Ok((s, q)), Ok((w, z))) => s@ == w && q as int == z && q <= d.len(),
            (Err(e), Err(f)) => e == f,
            _ => false,
        },
{
    let (len, q) = match read_u64(d, p) {
        Ok(x) => x,
        Err(e) => {
            return Err(e);
        },
    };
    if len > MAX_STRING_BYTES {
        return Err(GgufError::ImplausibleString(len));
    }
    let n: usize = len as usize;
    if n > d.len() - q {
        return Err(GgufError::Truncated);
    }
    let bytes = vstd::slice::slice_subrange(d, q, q + n);
    Ok((lossy_text(bytes), q + n))
}

fn skip(d: &[u8], p: usize, n: u128) -> (r: Result<usize, GgufError>)
    requires
        p <= d.len(),
    ensures
        place_as(r, past(d@, p as int, n as nat)),
        r is Ok ==> r->Ok_0 <= d.len(),
{
    if n > (d.len() - p) as u128 {
        Err(GgufError::Truncated)
    } else {
        Ok(p + n as usize)
    }
}

fn size_of_type(ty: u32) -> (r: Option<u64>)
    ensures
        match (r, fixed_size(ty)) {
            (Some(a), Some(b)) => a as nat == b && a <= 8,
            (None, None) => true,
            _ => false,
        },
{
    if ty == T_U8 || ty == T_I8 || ty == T_BOOL {
        Some(1)
    } else if ty == T_U16 || ty == T_I16 {
        Some(2)
    } else if ty == T_U32 || ty == T_I32 || ty == T_F32 {
        Some(4)
    } else if ty == T_U64 || ty == T_I64 || ty == T_F64 {
        Some(8)
    } else {
        None
    }
}

fn skip_string(d: &[u8], p: usize) -> (r: Result<usize, GgufError>)
    requires
        p <= d.len(),
    ensures
        place_as(r, past_string(d@, p as int)),
        r is Ok ==> r->Ok_0 <= d.len(),
{
    match read_u64(d, p) {
        Ok((len, q)) => skip(d, q, len as u128),
        Err(e) => Err(e),
    }
}

fn skip_strings(d: &[u8], p: usize, count: u64) -> (r: Result<usize, GgufError>)
    requires
        p <= d.len(),
    ensures
        place_as(r, past_strings(d@, p as int, count as nat)),
        r is Ok ==> r->Ok_0 <= d.len(),
{
    let mut left: u64 = count;
    let mut q: usize = p;
    while left > 0
        invariant
            q <= d.len(),
            past_strings(d@, p as int, count as nat) == past_strings(d@, q as int, left as nat),
        decreases left,
    {
        match skip_string(d, q) {
            Ok(z) => {
                q = z;
            },
            Err(e) => {
                return Err(e);
            },
        }
        left -= 1;
    }
    Ok(q)
}

fn skip_array(d: &[u8], p: usize) -> (r: Result<usize, GgufError>)
    requires
        p <= d.len(),
    ensures
        place_as(r, past_array(d@, p as int)),
        r is Ok ==> r->Ok_0 <= d.len(),
{
    let (elem, q) = match read_u32(d, p) {
        Ok(x) => x,
        Err(e) => {
            return Err(e);
        },
    };
    let (count, z) = match read_u64(d, q) {
        Ok(x) => x,
        Err(e) => {
            return Err(e);
        },
    };
    match size_of_type(elem) {
        Some(size) => {
            assert(count * size <= u64::MAX * 8) by (nonlinear_arith)
                requires
                    count <= u64::MAX,
                    size <= 8,
            ;
            skip(d, z, count as u128 * size as u128)
        },
        None => if elem == T_STRING {
            skip_strings(d, z, count)
        } else {
            Err(GgufError::UnsupportedElement(elem))
        },
    }
}

fn skip_value(d: &[u8], p: usize, ty: u32) -> (r: Result<usize, GgufError>)
    requires
        p <= d.len(),
    ensures
        place_as(r, past_value(d@, p as int, ty)),
        r is Ok ==> r->Ok_0 <= d.len(),
{
    match size_of_type(ty) {
        Some(size) => skip(d, p, size as u128),
        None => if ty == T_STRING {
            skip_string(d, p)
        } else if ty == T_ARRAY {
            skip_array(d, p)
        } else {
            Err(GgufError::UnknownType(ty))
        },
    }
}

fn as_string(d: &[u8], p: usize, ty: u32) -> (r: Result<(Option<String>, usize), GgufError>)
    requires
        p <= d.len(),
    ensures
        match (r, text_value(d@, p as int, ty)) {
            (Ok((s, q)), Ok((w, z))) => opt_text(s) == w && q as int == z && q <= d.len(),
            (Err(e), Err(f)) => e == f,
            _ => false,
        },
{
    if ty == T_STRING {
        match read_string(d, p) {
            Ok((s, q)) => Ok((Some(s), q)),
            Err(e) => Err(e),
        }
    } else {
        match skip_value(d, p, ty) {
            Ok(q) => Ok((None, q)),
            Err(e) => Err(e),
        }
    }
}

fn as_u64(d: &[u8], p: usize, ty: u32) -> (r: Result<(Option<u64>, usize), GgufError>)
    requires
        p <= d.len(),
    ensures
        read_as(r, number_value(d@, p as int, ty)),
        r is Ok ==> r->Ok_0.1 <= d.len(),
{
    if ty == T_U32 || ty == T_I32 {
        match read_u32(d, p) {
            Ok((v, q)) => if ty == T_U32 || v < 0x8000_0000 {
                Ok((Some(v as u64), q))
            } else {
                Ok((Some(v as u64 + 0xffff_ffff_0000_0000), q))
            },
            Err(e) => Err(e),
        }
    } else if ty == T_U64 || ty == T_I64 {
        match read_u64(d, p) {
            Ok((v, q)) => Ok((Some(v), q)),
            Err(e) => Err(e),
        }
    } else {
        match skip_value(d, p, ty) {
            Ok(q) => Ok((None, q)),
            Err(e) => Err(e),
        }
    }
}

fn file_type_name(n: u64) -> (r: String)
    ensures
        r@ == file_type_text(n),
{
    let name: &str = match n {
        0 => "F32",
        1 => "F16",
        2 => "Q4_0",
        3 => "Q4_1",
        7 => "Q8_0",
        8 => "Q5_0",
        9 => "Q5_1",
        10 => "Q2_K",
        11 => "Q3_K_S",
        12 => "Q3_K_M",
        13 => "Q3_K_L",
        14 => "Q4_K_S",
        15 => "Q4_K_M",
        16 => "Q5_K_S",
        17 => "Q5_K_M",
        18 => "Q6_K",
        19 => "IQ2_XXS",
        20 => "IQ2_XS",
        24 => "IQ4_NL",
        25 => "IQ4_XS",
        30 => "BF16",
        _ => {
            let mut s = "type ".to_owned();
            s.append(dec_text(n).as_str());
            return s;
        },
    };
    name.to_owned()
}

/// The pairs read so far, as values.
struct Found {
    meta: GgufMeta,
    arch_ctx: Option<u64>,
    other_ctx: Option<u64>,
}

impl Found {
    spec fn says(self, s: Pairs) -> bool {
        self.meta@ == s.meta && self.arch_ctx == s.arch_ctx && self.other_ctx == s.other_ctx
    }
}

fn read_pair_value(d: &[u8], p: usize, key: &String, ty: u32, f: &mut Found, Ghost(s): Ghost<
    Pairs,
>) -> (r: Result<usize, GgufError>)
    requires
        p <= d.len(),
        old(f).says(s),
    ensures
        match (r, pair_value(d@, p as int, key@, ty, s)) {
            (Ok(q), Ok((t, z))) => final(f).says(t) && q as int == z && q <= d.len(),
            (Err(e), Err(g)) => e == g,
            _ => false,
        },
{
    let k = key.as_str();
    if same_text(k, "general.architecture") {
        let (v, q) = match as_string(d, p, ty) {
            Ok(x) => x,
            Err(e) => {
                return Err(e);
            },
        };
        f.meta.architecture = v;
        Ok(q)
    } else if same_text(k, "general.name") {
        let (v, q) = match as_string(d, p, ty) {
            Ok(x) => x,
            Err(e) => {
                return Err(e);
            },
        };
        f.meta.name = v;
        Ok(q)
    } else if same_text(k, "general.size_label") {
        let (v, q) = match as_string(d, p, ty) {
            Ok(x) => x,
            Err(e) => {
                return Err(e);
            },
        };
        f.meta.size_label = v;
        Ok(q)
    } else if same_text(k, "general.file_type") {
        let (v, q) = match as_u64(d, p, ty) {
            Ok(x) => x,
            Err(e) => {
                return Err(e);
            },
        };
        if let Some(n) = v {
            f.meta.quantization = Some(file_type_name(n));
        }
        Ok(q)
    } else {
        let c = chars_of(k);
        if ends(&c, ".context_length") {
            let (v, q) = match as_u64(d, p, ty) {
                Ok(x) => x,
                Err(e) => {
                    return Err(e);
                },
            };
            let mut declared = false;
            if v.is_some() {
                if let Some(arch) = &f.meta.architecture {
                    let mut want = arch.clone();
                    want.append(".context_length");
                    declared = same_text(k, want.as_str());
                }
            }
            if declared {
                f.arch_ctx = v;
            } else if f.other_ctx.is_none() {
                f.other_ctx = v;
            }
            Ok(q)
        } else {
            skip_value(d, p, ty)
        }
    }
}

fn read_pair(d: &[u8], p: usize, f: &mut Found, Ghost(s): Ghost<Pairs>) -> (r: Result<
    usize,
    GgufError,
>)
    requires
        p <= d.len(),
        old(f).says(s),
    ensures
        match (r, pair_at(d@, p as int, s)) {
            (Ok(q), Ok((t, z))) => final(f).says(t) && q as int == z && q <= d.len(),
            (Err(e), Err(g)) => e == g,
            _ => false,
        },
{
    let (key, q) = match read_string(d, p) {
        Ok(x) => x,
        Err(e) => {
            return Err(e);
        },
    };
    let (ty, z) = match read_u32(d, q) {
        Ok(x) => x,
        Err(e) => {
            return Err(e);
        },
    };
    let at = match read_pair_value(d, z, &key, ty, f, Ghost(s)) {
        Ok(x) => x,
        Err(e) => {
            return Err(e);
        },
    };
    if at as u64 > MAX_HEADER_BYTES {
        Err(GgufError::HeaderTooLong)
    } else {
        Ok(at)
    }
}

fn read_tensor(d: &[u8], p: usize) -> (r: Result<(bool, usize), GgufError>)
    requires
        p <= d.len(),
    ensures
        read_as(r, tensor_at(d@, p as int)),
        r is Ok ==> r->Ok_0.1 <= d.len(),
{
    let (name, q) = match read_string(d, p) {
        Ok(x) => x,
        Err(e) => {
            return Err(e);
        },
    };
    let (rank, z) = match read_u32(d, q) {
        Ok(x) => x,
        Err(e) => {
            return Err(e);
        },
    };
    if rank > 8 {
        return Err(GgufError::ImplausibleRank(rank));
    }
    let at = match skip(d, z, rank as u128 * 8 + 12) {
        Ok(x) => x,
        Err(e) => {
            return Err(e);
        },
    };
    if at as u64 > MAX_HEADER_BYTES {
        return Err(GgufError::TensorsTooLong);
    }
    let c = chars_of(name.as_str());
    Ok((has_text(&c, ".nextn."), at))
}

/// Reads the metadata from the bytes that a file begins with.
pub fn read_meta(d: &[u8]) -> (r: Result<GgufMeta, GgufError>)
    ensures
        match (r, header_of(d@)) {
            (Ok(m), Ok(w)) => m@ == w,
            (Err(e), Err(f)) => e == f,
            _ => false,
        },
{
    let (magic, p4) = match read_u32(d, 0) {
        Ok(x) => x,
        Err(e) => {
            return Err(e);
        },
    };
    if magic != MAGIC {
        return Err(GgufError::BadMagic);
    }
    let (version, p8) = match read_u32(d, p4) {
        Ok(x) => x,
        Err(e) => {
            return Err(e);
        },
    };
    if version < 2 || version > 3 {
        return Err(GgufError::UnsupportedVersion(version));
    }
    let (tensors, p16) = match read_u64(d, p8) {
        Ok(x) => x,
        Err(e) => {
            return Err(e);
        },
    };
    let (count, start) = match read_u64(d, p16) {
        Ok(x) => x,
        Err(e) => {
            return Err(e);
        },
    };
    if count > MAX_KV_COUNT {
        return Err(GgufError::ImplausibleCount(count));
    }
    let mut f = Found { meta: GgufMeta::default(), arch_ctx: None, other_ctx: None };
    let ghost none = Pairs { meta: no_meta(), arch_ctx: None, other_ctx: None };
    let ghost mut s = none;
    let mut left: u64 = count;
    let mut p: usize = start;
    while left > 0
        invariant
            p <= d.len(),
            f.says(s),
            none == (Pairs { meta: no_meta(), arch_ctx: None, other_ctx: None }),
            header_of(d@) == body_of(d@, start as int, tensors, count),
            pairs_at(d@, start as int, count as nat, none) == pairs_at(
                d@,
                p as int,
                left as nat,
                s,
            ),
        decreases left,
    {
        match read_pair(d, p, &mut f, Ghost(s)) {
            Ok(q) => {
                proof {
                    s = pair_at(d@, p as int, s)->Ok_0.0;
                }
                p = q;
            },
            Err(e) => {
                return Err(e);
            },
        }
        left -= 1;
    }
    let mut found = false;
    let table: usize = p;
    let mut todo: u64 = tensors;
    while todo > 0
        invariant
            p <= d.len(),
            f.says(s),
            none == (Pairs { meta: no_meta(), arch_ctx: None, other_ctx: None }),
            header_of(d@) == body_of(d@, start as int, tensors, count),
            pairs_at(d@, start as int, count as nat, none) == Ok::<_, GgufError>((s, table as int)),
            tensors_at(d@, table as int, tensors as nat, false) == tensors_at(
                d@,
                p as int,
                todo as nat,
                found,
            ),
        decreases todo,
    {
        match read_tensor(d, p) {
            Ok((mtp, q)) => {
                found = found || mtp;
                p = q;
            },
            Err(e) => {
                return Err(e);
            },
        }
        todo -= 1;
    }
    let mut meta = f.meta;
    meta.context_length = match f.arch_ctx {
        Some(c) => Some(c),
        None => f.other_ctx,
    };
    meta.has_mtp = found;
    Ok(meta)
}

// --------------------------------------------------------------------- the law

/// A read that did not run into the end of the bytes.
pub open spec fn settled<T>(r: Result<T, GgufError>) -> bool {
    r != Err::<T, GgufError>(GgufError::Truncated)
}

proof fn lemma_numbers_stable(d: Seq<u8>, e: Seq<u8>, p: int)
    requires
        0 <= p,
    ensures
        settled(u32_at(d, p)) ==> u32_at(d + e, p) == u32_at(d, p),
        settled(u64_at(d, p)) ==> u64_at(d + e, p) == u64_at(d, p),
{
}

proof fn lemma_string_stable(d: Seq<u8>, e: Seq<u8>, p: int)
    requires
        0 <= p,
    ensures
        settled(string_at(d, p)) ==> string_at(d + e, p) == string_at(d, p),
        settled(past_string(d, p)) ==> past_string(d + e, p) == past_string(d, p),
        string_at(d, p) is Ok ==> string_at(d, p)->Ok_0.1 >= p,
        past_string(d, p) is Ok ==> past_string(d, p)->Ok_0 >= p,
{
    lemma_numbers_stable(d, e, p);
    if let Ok((len, q)) = u64_at(d, p) {
        if q + len <= d.len() {
            assert((d + e).subrange(q, q + len) =~= d.subrange(q, q + len));
        }
    }
}

proof fn lemma_strings_stable(d: Seq<u8>, e: Seq<u8>, p: int, count: nat)
    requires
        0 <= p,
    ensures
        settled(past_strings(d, p, count)) ==> past_strings(d + e, p, count) == past_strings(
            d,
            p,
            count,
        ),
        past_strings(d, p, count) is Ok ==> past_strings(d, p, count)->Ok_0 >= p,
    decreases count,
{
    if count > 0 {
        lemma_string_stable(d, e, p);
        if let Ok(q) = past_string(d, p) {
            lemma_strings_stable(d, e, q, (count - 1) as nat);
        }
    }
}

proof fn lemma_value_stable(d: Seq<u8>, e: Seq<u8>, p: int, ty: u32)
    requires
        0 <= p,
    ensures
        settled(past_value(d, p, ty)) ==> past_value(d + e, p, ty) == past_value(d, p, ty),
        past_value(d, p, ty) is Ok ==> past_value(d, p, ty)->Ok_0 >= p,
        settled(text_value(d, p, ty)) ==> text_value(d + e, p, ty) == text_value(d, p, ty),
        text_value(d, p, ty) is Ok ==> text_value(d, p, ty)->Ok_0.1 >= p,
        settled(number_value(d, p, ty)) ==> number_value(d + e, p, ty) == number_value(d, p, ty),
        number_value(d, p, ty) is Ok ==> number_value(d, p, ty)->Ok_0.1 >= p,
{
    lemma_numbers_stable(d, e, p);
    lemma_string_stable(d, e, p);
    if let Ok((elem, q)) = u32_at(d, p) {
        lemma_numbers_stable(d, e, q);
        if let Ok((count, r)) = u64_at(d, q) {
            lemma_strings_stable(d, e, r, count as nat);
            if let Some(size) = fixed_size(elem) {
                assert(count as nat * size >= 0) by (nonlinear_arith);
            }
        }
    }
}

proof fn lemma_pair_stable(d: Seq<u8>, e: Seq<u8>, p: int, s: Pairs)
    requires
        0 <= p,
    ensures
        settled(pair_at(d, p, s)) ==> pair_at(d + e, p, s) == pair_at(d, p, s),
        pair_at(d, p, s) is Ok ==> pair_at(d, p, s)->Ok_0.1 >= p,
{
    lemma_string_stable(d, e, p);
    if let Ok((key, q)) = string_at(d, p) {
        lemma_numbers_stable(d, e, q);
        if let Ok((ty, r)) = u32_at(d, q) {
            lemma_value_stable(d, e, r, ty);
        }
    }
}

proof fn lemma_pairs_stable(d: Seq<u8>, e: Seq<u8>, p: int, count: nat, s: Pairs)
    requires
        0 <= p,
    ensures
        settled(pairs_at(d, p, count, s)) ==> pairs_at(d + e, p, count, s) == pairs_at(
            d,
            p,
            count,
            s,
        ),
        pairs_at(d, p, count, s) is Ok ==> pairs_at(d, p, count, s)->Ok_0.1 >= p,
    decreases count,
{
    if count > 0 {
        lemma_pair_stable(d, e, p, s);
        if let Ok((t, q)) = pair_at(d, p, s) {
            lemma_pairs_stable(d, e, q, (count - 1) as nat, t);
        }
    }
}

proof fn lemma_tensors_stable(d: Seq<u8>, e: Seq<u8>, p: int, count: nat, found: bool)
    requires
        0 <= p,
    ensures
        settled(tensors_at(d, p, count, found)) ==> tensors_at(d + e, p, count, found)
            == tensors_at(d, p, count, found),
    decreases count,
{
    if count > 0 {
        lemma_string_stable(d, e, p);
        if let Ok((name, q)) = string_at(d, p) {
            lemma_numbers_stable(d, e, q);
        }
        if let Ok((mtp, q)) = tensor_at(d, p) {
            lemma_tensors_stable(d, e, q, (count - 1) as nat, found || mtp);
        }
    }
}

/// What the reader says of the bytes that a file begins with, no further
/// bytes can change, unless it said that they end too early. So a file needs
/// to be read only as far as the header goes.
pub proof fn enough_bytes_settle_the_header(d: Seq<u8>, e: Seq<u8>)
    requires
        settled(header_of(d)),
    ensures
        header_of(d + e) == header_of(d),
{
    lemma_numbers_stable(d, e, 0);
    lemma_numbers_stable(d, e, 4);
    lemma_numbers_stable(d, e, 8);
    lemma_numbers_stable(d, e, 16);
    if let Ok((count, p)) = u64_at(d, 16) {
        let none = Pairs { meta: no_meta(), arch_ctx: None, other_ctx: None };
        lemma_pairs_stable(d, e, p, count as nat, none);
        if let Ok((s, q)) = pairs_at(d, p, count as nat, none) {
            if let Ok((tensors, _)) = u64_at(d, 8) {
                lemma_tensors_stable(d, e, q, tensors as nat, false);
            }
        }
    }
}

// ------------------------------------------------------- what was written is read

/// The four bytes of a number, the lowest first.
pub open spec fn bytes32(n: u32) -> Seq<u8> {
    seq![
        (n % 256) as u8,
        (n / 256 % 256) as u8,
        (n / 65_536 % 256) as u8,
        (n / 16_777_216) as u8,
    ]
}

/// The eight bytes of a number, the lowest first.
pub open spec fn bytes64(n: u64) -> Seq<u8> {
    bytes32((n % 4_294_967_296) as u32) + bytes32((n / 4_294_967_296) as u32)
}

/// A length and that many bytes.
pub open spec fn bytes_of_text(b: Seq<u8>) -> Seq<u8> {
    bytes64(b.len() as u64) + b
}

pub open spec fn bytes_of_texts(v: Seq<Seq<u8>>) -> Seq<u8>
    decreases v.len(),
{
    if v.len() == 0 {
        Seq::empty()
    } else {
        bytes_of_text(v[0]) + bytes_of_texts(v.skip(1))
    }
}

/// What a pair of a header holds.
pub enum Held {
    Text(Seq<u8>),
    U32(u32),
    I32(u32),
    U64(u64),
    I64(u64),
    /// A value of another type of a fixed size.
    Plain(u32, Seq<u8>),
    /// An array of so many elements of a type of a fixed size.
    Run(u32, u64, Seq<u8>),
    /// An array of texts.
    Texts(Seq<Seq<u8>>),
}

/// How many bytes a value of a type takes; none for a text, an array, or no
/// type at all.
pub open spec fn width_of(ty: u32) -> nat {
    if ty == 0 || ty == 1 || ty == 7 {
        1
    } else if ty == 2 || ty == 3 {
        2
    } else if 4 <= ty <= 6 {
        4
    } else if 10 <= ty <= 12 {
        8
    } else {
        0
    }
}

/// The value can be written, and a reader is willing to read it.
pub open spec fn writable(h: Held) -> bool {
    match h {
        Held::Text(b) => b.len() <= 67_108_864,
        Held::Plain(ty, b) => width_of(ty) > 0 && b.len() == width_of(ty) && ty != 4 && ty != 5
            && ty != 10 && ty != 11,
        Held::Run(ty, n, b) => width_of(ty) > 0 && b.len() == n * width_of(ty),
        Held::Texts(v) => v.len() <= u64::MAX && forall|i: int|
            0 <= i < v.len() ==> (#[trigger] v[i]).len() <= u64::MAX,
        _ => true,
    }
}

/// The number that stands for the type of a value.
pub open spec fn type_of(h: Held) -> u32 {
    match h {
        Held::Text(_) => 8,
        Held::U32(_) => 4,
        Held::I32(_) => 5,
        Held::U64(_) => 10,
        Held::I64(_) => 11,
        Held::Plain(ty, _) => ty,
        Held::Run(_, _, _) => 9,
        Held::Texts(_) => 9,
    }
}

pub open spec fn bytes_of(h: Held) -> Seq<u8> {
    match h {
        Held::Text(b) => bytes_of_text(b),
        Held::U32(n) => bytes32(n),
        Held::I32(n) => bytes32(n),
        Held::U64(n) => bytes64(n),
        Held::I64(n) => bytes64(n),
        Held::Plain(_, b) => b,
        Held::Run(ty, n, b) => bytes32(ty) + bytes64(n) + b,
        Held::Texts(v) => bytes32(8) + bytes64(v.len() as u64) + bytes_of_texts(v),
    }
}

pub open spec fn bytes_of_pair(p: (Seq<u8>, Held)) -> Seq<u8> {
    bytes_of_text(p.0) + bytes32(type_of(p.1)) + bytes_of(p.1)
}

pub open spec fn bytes_of_pairs(v: Seq<(Seq<u8>, Held)>) -> Seq<u8>
    decreases v.len(),
{
    if v.len() == 0 {
        Seq::empty()
    } else {
        bytes_of_pair(v[0]) + bytes_of_pairs(v.skip(1))
    }
}

/// An entry of the tensor table: a name, dimensions of eight bytes each, and
/// the twelve bytes of a type and an offset.
pub struct TensorEntry {
    pub name: Seq<u8>,
    pub rank: u32,
    pub dimensions: Seq<u8>,
    pub rest: Seq<u8>,
}

pub open spec fn bytes_of_tensor(t: TensorEntry) -> Seq<u8> {
    bytes_of_text(t.name) + bytes32(t.rank) + t.dimensions + t.rest
}

pub open spec fn bytes_of_tensors(v: Seq<TensorEntry>) -> Seq<u8>
    decreases v.len(),
{
    if v.len() == 0 {
        Seq::empty()
    } else {
        bytes_of_tensor(v[0]) + bytes_of_tensors(v.skip(1))
    }
}

/// A header: the letters GGUF, a version, two counts, the pairs and the
/// tensor table.
pub open spec fn bytes_of_header(
    version: u32,
    pairs: Seq<(Seq<u8>, Held)>,
    tensors: Seq<TensorEntry>,
) -> Seq<u8> {
    seq![71u8, 71u8, 85u8, 70u8] + bytes32(version) + bytes64(tensors.len() as u64) + bytes64(
        pairs.len() as u64,
    ) + bytes_of_pairs(pairs) + bytes_of_tensors(tensors)
}

/// The header can be written, and a reader is willing to read it.
pub open spec fn plausible(
    version: u32,
    pairs: Seq<(Seq<u8>, Held)>,
    tensors: Seq<TensorEntry>,
) -> bool {
    &&& version == 2 || version == 3
    &&& pairs.len() <= 100_000
    &&& tensors.len() <= u64::MAX
    &&& forall|i: int|
        0 <= i < pairs.len() ==> (#[trigger] pairs[i]).0.len() <= 67_108_864 && writable(pairs[i].1)
    &&& forall|i: int| 0 <= i < tensors.len() ==> sound(#[trigger] tensors[i])
    &&& bytes_of_header(version, pairs, tensors).len() <= 268_435_456
}

pub open spec fn sound(t: TensorEntry) -> bool {
    &&& t.name.len() <= 67_108_864
    &&& t.rank <= 8
    &&& t.dimensions.len() == t.rank * 8
    &&& t.rest.len() == 12
}

/// The bytes stand at a place.
spec fn stand_at(d: Seq<u8>, p: int, b: Seq<u8>) -> bool {
    &&& 0 <= p
    &&& p + b.len() <= d.len()
    &&& forall|i: int| 0 <= i < b.len() ==> d[p + i] == #[trigger] b[i]
}

proof fn lemma_stand(d: Seq<u8>, p: int, a: Seq<u8>, b: Seq<u8>)
    requires
        stand_at(d, p, a + b),
    ensures
        stand_at(d, p, a),
        stand_at(d, p + a.len(), b),
{
    assert forall|i: int| 0 <= i < a.len() implies d[p + i] == #[trigger] a[i] by {
        assert((a + b)[i] == a[i]);
    }
    assert forall|i: int| 0 <= i < b.len() implies d[p + a.len() + i] == #[trigger] b[i] by {
        assert((a + b)[a.len() + i] == b[i]);
    }
}

proof fn lemma_read_32(d: Seq<u8>, p: int, n: u32)
    requires
        stand_at(d, p, bytes32(n)),
    ensures
        u32_at(d, p) == Ok::<(u32, int), GgufError>((n, p + 4)),
{
    let b = bytes32(n);
    assert(d[p + 0] == b[0] && d[p + 1] == b[1] && d[p + 2] == b[2] && d[p + 3] == b[3]);
    assert(le32(d, p) == n);
}

proof fn lemma_read_64(d: Seq<u8>, p: int, n: u64)
    requires
        stand_at(d, p, bytes64(n)),
    ensures
        u64_at(d, p) == Ok::<(u64, int), GgufError>((n, p + 8)),
{
    let (lo, hi) = ((n % 4_294_967_296) as u32, (n / 4_294_967_296) as u32);
    lemma_stand(d, p, bytes32(lo), bytes32(hi));
    lemma_read_32(d, p, lo);
    lemma_read_32(d, p + 4, hi);
    let (a, b) = (bytes32(lo), bytes32(hi));
    assert(d[p + 0] == a[0] && d[p + 1] == a[1] && d[p + 2] == a[2] && d[p + 3] == a[3]);
    assert(d[p + 4 + 0] == b[0] && d[p + 4 + 1] == b[1] && d[p + 4 + 2] == b[2] && d[p + 4 + 3]
        == b[3]);
    assert(le32(d, p) == lo);
    assert(le32(d, p + 4) == hi);
    assert(le64(d, p) == n);
}

proof fn lemma_read_text(d: Seq<u8>, p: int, b: Seq<u8>)
    requires
        stand_at(d, p, bytes_of_text(b)),
        b.len() <= u64::MAX,
    ensures
        past_string(d, p) == Ok::<int, GgufError>(p + 8 + b.len()),
        b.len() <= 67_108_864 ==> string_at(d, p) == Ok::<(Seq<char>, int), GgufError>(
            (utf8_lossy(b), p + 8 + b.len()),
        ),
{
    lemma_stand(d, p, bytes64(b.len() as u64), b);
    lemma_read_64(d, p, b.len() as u64);
    assert(d.subrange(p + 8, p + 8 + b.len()) =~= b);
}

proof fn lemma_read_texts(d: Seq<u8>, p: int, v: Seq<Seq<u8>>)
    requires
        stand_at(d, p, bytes_of_texts(v)),
        forall|i: int| 0 <= i < v.len() ==> (#[trigger] v[i]).len() <= u64::MAX,
    ensures
        past_strings(d, p, v.len()) == Ok::<int, GgufError>(p + bytes_of_texts(v).len()),
    decreases v.len(),
{
    if v.len() > 0 {
        let w = v.skip(1);
        lemma_stand(d, p, bytes_of_text(v[0]), bytes_of_texts(w));
        lemma_read_text(d, p, v[0]);
        assert forall|i: int| 0 <= i < w.len() implies (#[trigger] w[i]).len() <= u64::MAX by {
            assert(w[i] == v[i + 1]);
        }
        lemma_read_texts(d, p + 8 + v[0].len(), w);
    }
}

/// What stands at the head of an array: the type of its elements, and how many they are.
proof fn lemma_read_array(d: Seq<u8>, p: int, ty: u32, n: u64, rest: Seq<u8>)
    requires
        stand_at(d, p, bytes32(ty) + bytes64(n) + rest),
    ensures
        u32_at(d, p) == Ok::<(u32, int), GgufError>((ty, p + 4)),
        u64_at(d, p + 4) == Ok::<(u64, int), GgufError>((n, p + 12)),
        stand_at(d, p + 12, rest),
        (bytes32(ty) + bytes64(n) + rest).len() == 12 + rest.len(),
{
    let head = bytes32(ty) + bytes64(n);
    lemma_stand(d, p, head, rest);
    lemma_stand(d, p, bytes32(ty), bytes64(n));
    lemma_read_32(d, p, ty);
    lemma_read_64(d, p + 4, n);
}

/// An array of elements of one width is passed over by its head and by as many of them.
#[verifier::spinoff_prover]
proof fn lemma_pass_run(d: Seq<u8>, p: int, ty: u32, n: u64, b: Seq<u8>)
    requires
        stand_at(d, p, bytes_of(Held::Run(ty, n, b))),
        writable(Held::Run(ty, n, b)),
    ensures
        past_value(d, p, 9) == Ok::<int, GgufError>(p + bytes_of(Held::Run(ty, n, b)).len()),
{
    lemma_read_array(d, p, ty, n, b);
    assert(n as nat * width_of(ty) == n * width_of(ty));
}

#[verifier::spinoff_prover]
proof fn lemma_pass_texts(d: Seq<u8>, p: int, v: Seq<Seq<u8>>)
    requires
        stand_at(d, p, bytes_of(Held::Texts(v))),
        writable(Held::Texts(v)),
    ensures
        past_value(d, p, 9) == Ok::<int, GgufError>(p + bytes_of(Held::Texts(v)).len()),
{
    lemma_read_array(d, p, 8, v.len() as u64, bytes_of_texts(v));
    lemma_read_texts(d, p + 12, v);
}

/// A value is passed over by exactly the bytes it takes.
#[verifier::spinoff_prover]
#[verifier::rlimit(60)]
proof fn lemma_pass_value(d: Seq<u8>, p: int, h: Held)
    requires
        stand_at(d, p, bytes_of(h)),
        writable(h),
    ensures
        past_value(d, p, type_of(h)) == Ok::<int, GgufError>(p + bytes_of(h).len()),
{
    match h {
        Held::Text(b) => {
            lemma_read_text(d, p, b);
        },
        Held::Run(ty, n, b) => {
            lemma_pass_run(d, p, ty, n, b);
        },
        Held::Texts(v) => {
            lemma_pass_texts(d, p, v);
        },
        _ => {},
    }
}

/// The text that a value is.
pub open spec fn text_held(h: Held) -> Option<Seq<char>> {
    match h {
        Held::Text(b) => Some(utf8_lossy(b)),
        _ => None,
    }
}

/// The number that a value is; a negative one counts from the top of 64 bits.
pub open spec fn number_held(h: Held) -> Option<u64> {
    match h {
        Held::U32(n) => Some(n as u64),
        Held::I32(n) => Some(
            if n < 0x8000_0000 {
                n as u64
            } else {
                (n + 0xffff_ffff_0000_0000) as u64
            },
        ),
        Held::U64(n) => Some(n),
        Held::I64(n) => Some(n),
        _ => None,
    }
}

proof fn lemma_hold_value(d: Seq<u8>, p: int, h: Held)
    requires
        stand_at(d, p, bytes_of(h)),
        writable(h),
    ensures
        text_value(d, p, type_of(h)) == Ok::<(Option<Seq<char>>, int), GgufError>(
            (text_held(h), p + bytes_of(h).len()),
        ),
        number_value(d, p, type_of(h)) == Ok::<(Option<u64>, int), GgufError>(
            (number_held(h), p + bytes_of(h).len()),
        ),
{
    lemma_pass_value(d, p, h);
    match h {
        Held::Text(b) => {
            lemma_read_text(d, p, b);
        },
        Held::U32(n) => {
            lemma_read_32(d, p, n);
        },
        Held::I32(n) => {
            lemma_read_32(d, p, n);
        },
        Held::U64(n) => {
            lemma_read_64(d, p, n);
        },
        Held::I64(n) => {
            lemma_read_64(d, p, n);
        },
        _ => {},
    }
}

/// What one more pair says.
spec fn said_by(s: Pairs, key: Seq<char>, h: Held) -> Pairs {
    if key == "general.architecture"@ {
        Pairs { meta: GgufMetaView { architecture: text_held(h), ..s.meta }, ..s }
    } else if key == "general.name"@ {
        Pairs { meta: GgufMetaView { name: text_held(h), ..s.meta }, ..s }
    } else if key == "general.size_label"@ {
        Pairs { meta: GgufMetaView { size_label: text_held(h), ..s.meta }, ..s }
    } else if key == "general.file_type"@ {
        match number_held(h) {
            Some(n) => Pairs {
                meta: GgufMetaView { quantization: Some(file_type_text(n)), ..s.meta },
                ..s
            },
            None => s,
        }
    } else if ends_with(key, ".context_length"@) {
        if number_held(h) is Some && s.meta.architecture is Some && key == s.meta.architecture->0
            + ".context_length"@ {
            Pairs { arch_ctx: number_held(h), ..s }
        } else if s.other_ctx is None {
            Pairs { other_ctx: number_held(h), ..s }
        } else {
            s
        }
    } else {
        s
    }
}

spec fn said_by_all(s: Pairs, v: Seq<(Seq<u8>, Held)>) -> Pairs
    decreases v.len(),
{
    if v.len() == 0 {
        s
    } else {
        said_by_all(said_by(s, utf8_lossy(v[0].0), v[0].1), v.skip(1))
    }
}

proof fn lemma_read_pairs(d: Seq<u8>, p: int, v: Seq<(Seq<u8>, Held)>, s: Pairs)
    requires
        stand_at(d, p, bytes_of_pairs(v)),
        p + bytes_of_pairs(v).len() <= 268_435_456,
        forall|i: int|
            0 <= i < v.len() ==> (#[trigger] v[i]).0.len() <= 67_108_864 && writable(v[i].1),
    ensures
        pairs_at(d, p, v.len(), s) == Ok::<(Pairs, int), GgufError>(
            (said_by_all(s, v), p + bytes_of_pairs(v).len()),
        ),
    decreases v.len(),
{
    if v.len() > 0 {
        let w = v.skip(1);
        let (k, h) = v[0];
        assert(k.len() <= 67_108_864 && writable(h));
        lemma_stand(d, p, bytes_of_pair(v[0]), bytes_of_pairs(w));
        let front = bytes_of_text(k) + bytes32(type_of(h));
        lemma_stand(d, p, front, bytes_of(h));
        lemma_stand(d, p, bytes_of_text(k), bytes32(type_of(h)));
        lemma_read_text(d, p, k);
        lemma_read_32(d, p + 8 + k.len(), type_of(h));
        let at = p + 8 + k.len() + 4;
        lemma_pass_value(d, at, h);
        lemma_hold_value(d, at, h);
        let t = said_by(s, utf8_lossy(k), h);
        assert(pair_at(d, p, s) == Ok::<(Pairs, int), GgufError>(
            (t, p + bytes_of_pair(v[0]).len()),
        ));
        assert forall|i: int| 0 <= i < w.len() implies (#[trigger] w[i]).0.len() <= 67_108_864
            && writable(w[i].1) by {
            assert(w[i] == v[i + 1]);
        }
        lemma_read_pairs(d, p + bytes_of_pair(v[0]).len(), w, t);
    }
}

/// A tensor of a layer that predicts more than one token is among them.
pub open spec fn predicts_ahead(v: Seq<TensorEntry>) -> bool {
    exists|i: int| 0 <= i < v.len() && contains(utf8_lossy((#[trigger] v[i]).name), ".nextn."@)
}

proof fn lemma_read_tensors(d: Seq<u8>, p: int, v: Seq<TensorEntry>, found: bool)
    requires
        stand_at(d, p, bytes_of_tensors(v)),
        p + bytes_of_tensors(v).len() <= 268_435_456,
        forall|i: int| 0 <= i < v.len() ==> sound(#[trigger] v[i]),
    ensures
        tensors_at(d, p, v.len(), found) == Ok::<bool, GgufError>(found || predicts_ahead(v)),
    decreases v.len(),
{
    if v.len() > 0 {
        let w = v.skip(1);
        let t = v[0];
        assert(sound(t));
        lemma_stand(d, p, bytes_of_tensor(t), bytes_of_tensors(w));
        let front = bytes_of_text(t.name) + bytes32(t.rank);
        lemma_stand(d, p, front + t.dimensions, t.rest);
        lemma_stand(d, p, front, t.dimensions);
        lemma_stand(d, p, bytes_of_text(t.name), bytes32(t.rank));
        lemma_read_text(d, p, t.name);
        lemma_read_32(d, p + 8 + t.name.len(), t.rank);
        let here = contains(utf8_lossy(t.name), ".nextn."@);
        assert(tensor_at(d, p) == Ok::<(bool, int), GgufError>(
            (here, p + bytes_of_tensor(t).len()),
        ));
        assert forall|i: int| 0 <= i < w.len() implies sound(#[trigger] w[i]) by {
            assert(w[i] == v[i + 1]);
        }
        lemma_read_tensors(d, p + bytes_of_tensor(t).len(), w, found || here);
        if predicts_ahead(w) {
            let i = choose|i: int|
                0 <= i < w.len() && contains(utf8_lossy((#[trigger] w[i]).name), ".nextn."@);
            assert(v[i + 1] == w[i]);
        }
        if predicts_ahead(v) && !here {
            let i = choose|i: int|
                0 <= i < v.len() && contains(utf8_lossy((#[trigger] v[i]).name), ".nextn."@);
            assert(w[i - 1] == v[i]);
        }
    }
}

spec fn nothing_said() -> Pairs {
    Pairs { meta: no_meta(), arch_ctx: None, other_ctx: None }
}

proof fn lemma_read_header(
    version: u32,
    pairs: Seq<(Seq<u8>, Held)>,
    tensors: Seq<TensorEntry>,
    more: Seq<u8>,
)
    requires
        plausible(version, pairs, tensors),
    ensures
        ({
            let r = header_of(bytes_of_header(version, pairs, tensors) + more);
            let s = said_by_all(nothing_said(), pairs);
            r == Ok::<GgufMetaView, GgufError>(
                GgufMetaView {
                    context_length: if s.arch_ctx is Some {
                        s.arch_ctx
                    } else {
                        s.other_ctx
                    },
                    has_mtp: predicts_ahead(tensors),
                    ..s.meta
                },
            )
        }),
{
    let d = bytes_of_header(version, pairs, tensors) + more;
    lemma_header_parts(version, pairs, tensors, more);
    lemma_header_front(version, pairs, tensors, d);
    let p = bytes_of_pairs(pairs);
    lemma_read_pairs(d, 24, pairs, nothing_said());
    lemma_read_tensors(d, 24 + p.len() as int, tensors, false);
}

proof fn lemma_header_parts(
    version: u32,
    pairs: Seq<(Seq<u8>, Held)>,
    tensors: Seq<TensorEntry>,
    more: Seq<u8>,
)
    ensures
        ({
            let d = bytes_of_header(version, pairs, tensors) + more;
            &&& stand_at(d, 0, seq![71u8, 71u8, 85u8, 70u8])
            &&& stand_at(d, 4, bytes32(version))
            &&& stand_at(d, 8, bytes64(tensors.len() as u64))
            &&& stand_at(d, 16, bytes64(pairs.len() as u64))
            &&& stand_at(d, 24, bytes_of_pairs(pairs))
            &&& stand_at(d, 24 + bytes_of_pairs(pairs).len() as int, bytes_of_tensors(tensors))
        }),
        bytes_of_header(version, pairs, tensors).len() == 24 + bytes_of_pairs(pairs).len()
            + bytes_of_tensors(tensors).len(),
{
    let all = bytes_of_header(version, pairs, tensors);
    let d = all + more;
    let magic = seq![71u8, 71u8, 85u8, 70u8];
    let (v, t, c) = (
        bytes32(version),
        bytes64(tensors.len() as u64),
        bytes64(pairs.len() as u64),
    );
    lemma_widths(version, tensors.len() as u64);
    lemma_widths(version, pairs.len() as u64);
    lemma_six_parts(d, magic, v, t, c, bytes_of_pairs(pairs), bytes_of_tensors(tensors), more);
}

proof fn lemma_widths(a: u32, b: u64)
    ensures
        bytes32(a).len() == 4,
        bytes64(b).len() == 8,
{
}

#[verifier::spinoff_prover]
proof fn lemma_six_parts(
    d: Seq<u8>,
    m: Seq<u8>,
    v: Seq<u8>,
    t: Seq<u8>,
    c: Seq<u8>,
    p: Seq<u8>,
    q: Seq<u8>,
    more: Seq<u8>,
)
    requires
        d == m + v + t + c + p + q + more,
        m.len() == 4,
        v.len() == 4,
        t.len() == 8,
        c.len() == 8,
    ensures
        stand_at(d, 0, m),
        stand_at(d, 4, v),
        stand_at(d, 8, t),
        stand_at(d, 16, c),
        stand_at(d, 24, p),
        stand_at(d, 24 + p.len() as int, q),
{
    lemma_part_stands(d, Seq::empty(), m, v + t + c + p + q + more);
    lemma_part_stands(d, m, v, t + c + p + q + more);
    lemma_part_stands(d, m + v, t, c + p + q + more);
    lemma_part_stands(d, m + v + t, c, p + q + more);
    lemma_part_stands(d, m + v + t + c, p, q + more);
    lemma_part_stands(d, m + v + t + c + p, q, more);
}

proof fn lemma_part_stands(d: Seq<u8>, a: Seq<u8>, b: Seq<u8>, more: Seq<u8>)
    requires
        d =~= a + b + more,
    ensures
        stand_at(d, a.len() as int, b),
{
    assert forall|i: int| 0 <= i < b.len() implies d[a.len() + i] == #[trigger] b[i] by {}
}

#[verifier::spinoff_prover]
#[verifier::rlimit(60)]
proof fn lemma_header_front(
    version: u32,
    pairs: Seq<(Seq<u8>, Held)>,
    tensors: Seq<TensorEntry>,
    d: Seq<u8>,
)
    requires
        version == 2 || version == 3,
        pairs.len() <= 100_000,
        tensors.len() <= u64::MAX,
        stand_at(d, 0, seq![71u8, 71u8, 85u8, 70u8]),
        stand_at(d, 4, bytes32(version)),
        stand_at(d, 8, bytes64(tensors.len() as u64)),
        stand_at(d, 16, bytes64(pairs.len() as u64)),
    ensures
        header_of(d) == body_of(d, 24, tensors.len() as u64, pairs.len() as u64),
{
    assert(seq![71u8, 71u8, 85u8, 70u8] =~= bytes32(0x4655_4747));
    lemma_read_32(d, 0, 0x4655_4747);
    assert(u32_at(d, 0) == Ok::<(u32, int), GgufError>((MAGIC, 4)));
    lemma_read_32(d, 4, version);
    lemma_read_64(d, 8, tensors.len() as u64);
    lemma_read_64(d, 16, pairs.len() as u64);
}

/// The last pair with a key, whatever it holds.
pub open spec fn last_of(v: Seq<(Seq<u8>, Held)>, key: Seq<char>) -> Option<Held>
    decreases v.len(),
{
    if v.len() == 0 {
        None
    } else if utf8_lossy(v.last().0) == key {
        Some(v.last().1)
    } else {
        last_of(v.drop_last(), key)
    }
}

/// The number of the last pair with a key that holds one.
pub open spec fn last_number_of(v: Seq<(Seq<u8>, Held)>, key: Seq<char>) -> Option<u64>
    decreases v.len(),
{
    if v.len() == 0 {
        None
    } else if utf8_lossy(v.last().0) == key && number_held(v.last().1) is Some {
        number_held(v.last().1)
    } else {
        last_number_of(v.drop_last(), key)
    }
}

proof fn lemma_said_last(s: Pairs, v: Seq<(Seq<u8>, Held)>)
    requires
        v.len() > 0,
    ensures
        said_by_all(s, v) == said_by(
            said_by_all(s, v.drop_last()),
            utf8_lossy(v.last().0),
            v.last().1,
        ),
    decreases v.len(),
{
    let w = v.skip(1);
    let t = said_by(s, utf8_lossy(v[0].0), v[0].1);
    if v.len() == 1 {
        assert(w =~= Seq::<(Seq<u8>, Held)>::empty());
        assert(v.drop_last() =~= Seq::<(Seq<u8>, Held)>::empty());
        assert(said_by_all(t, w) == t);
        assert(said_by_all(s, v.drop_last()) == s);
    } else {
        lemma_said_last(t, w);
        assert(w.drop_last() =~= v.drop_last().skip(1));
        assert(v.drop_last()[0] == v[0]);
        assert(w.last() == v.last());
    }
}

proof fn lemma_keys_differ()
    ensures
        "general.architecture"@ != "general.name"@,
        "general.architecture"@ != "general.size_label"@,
        "general.architecture"@ != "general.file_type"@,
        "general.name"@ != "general.size_label"@,
        "general.name"@ != "general.file_type"@,
        "general.size_label"@ != "general.file_type"@,
        !ends_with("general.architecture"@, ".context_length"@),
        !ends_with("general.name"@, ".context_length"@),
        !ends_with("general.size_label"@, ".context_length"@),
        !ends_with("general.file_type"@, ".context_length"@),
{
    reveal_strlit("general.architecture");
    reveal_strlit("general.name");
    reveal_strlit("general.size_label");
    reveal_strlit("general.file_type");
    reveal_strlit(".context_length");
    assert("general.architecture"@.len() == 20);
    assert("general.name"@.len() == 12);
    assert("general.size_label"@.len() == 18);
    assert("general.file_type"@.len() == 17);
    let n = ".context_length"@;
    assert(n.len() == 15 && n[14] == 'h' && n[13] == 't');
    let (a, b, c) = ("general.architecture"@, "general.size_label"@, "general.file_type"@);
    assert(a.subrange(5, 20)[14] == a[19]);
    assert(b.subrange(3, 18)[14] == b[17]);
    assert(c.subrange(2, 17)[14] == c[16]);
}

proof fn lemma_what_is_said(v: Seq<(Seq<u8>, Held)>)
    ensures
        ({
            let m = said_by_all(nothing_said(), v).meta;
            let text = |key: Seq<char>|
                match last_of(v, key) {
                    Some(h) => text_held(h),
                    None => None,
                };
            &&& m.architecture == text("general.architecture"@)
            &&& m.name == text("general.name"@)
            &&& m.size_label == text("general.size_label"@)
            &&& m.quantization == match last_number_of(v, "general.file_type"@) {
                Some(n) => Some(file_type_text(n)),
                None => None,
            }
        }),
    decreases v.len(),
{
    if v.len() > 0 {
        lemma_what_is_said(v.drop_last());
        lemma_said_last(nothing_said(), v);
        lemma_keys_differ();
    }
}

/// A header is read back as it was written, whatever stands behind it. Every
/// pair is passed over by exactly the bytes it takes — texts, numbers, arrays
/// of elements of a fixed size and arrays of texts — so that the last text
/// under the key of the architecture, of the name and of the size label is
/// what is told, the last number under the key of the file type names the
/// quantization, and the model predicts ahead where a tensor says so.
pub proof fn a_header_is_read_back(
    version: u32,
    pairs: Seq<(Seq<u8>, Held)>,
    tensors: Seq<TensorEntry>,
    more: Seq<u8>,
)
    requires
        plausible(version, pairs, tensors),
    ensures
        ({
            let r = header_of(bytes_of_header(version, pairs, tensors) + more);
            let text = |key: Seq<char>|
                match last_of(pairs, key) {
                    Some(Held::Text(b)) => Some(utf8_lossy(b)),
                    _ => None,
                };
            &&& r is Ok
            &&& (r->Ok_0).architecture == text("general.architecture"@)
            &&& (r->Ok_0).name == text("general.name"@)
            &&& (r->Ok_0).size_label == text("general.size_label"@)
            &&& (r->Ok_0).quantization is Some <==> last_number_of(pairs, "general.file_type"@)
                is Some
            &&& last_number_of(pairs, "general.file_type"@) matches Some(n) ==> (
            r->Ok_0).quantization == Some(file_type_text(n))
            &&& (r->Ok_0).has_mtp <==> exists|i: int|
                0 <= i < tensors.len() && contains(
                    utf8_lossy((#[trigger] tensors[i]).name),
                    ".nextn."@,
                )
        }),
{
    lemma_read_header(version, pairs, tensors, more);
    lemma_what_is_said(pairs);
}

/// The context that the declared architecture states is the one that is told,
/// whatever other prefixes state: the last number under the architecture's own
/// key, once the architecture is declared.
pub proof fn the_declared_context_is_told(
    version: u32,
    pairs: Seq<(Seq<u8>, Held)>,
    tensors: Seq<TensorEntry>,
    more: Seq<u8>,
    i: int,
    j: int,
    arch: Seq<u8>,
    n: u64,
)
    requires
        plausible(version, pairs, tensors),
        0 <= i < j < pairs.len(),
        utf8_lossy(pairs[i].0) == "general.architecture"@,
        pairs[i].1 == Held::Text(arch),
        forall|k: int|
            i < k < pairs.len() ==> utf8_lossy((#[trigger] pairs[k]).0) != "general.architecture"@,
        utf8_lossy(pairs[j].0) == utf8_lossy(arch) + ".context_length"@,
        pairs[j].1 == Held::U32(n as u32) && n <= u32::MAX || pairs[j].1 == Held::U64(n),
        forall|k: int|
            j < k < pairs.len() ==> utf8_lossy((#[trigger] pairs[k]).0) != utf8_lossy(arch)
                + ".context_length"@,
    ensures
        header_of(bytes_of_header(version, pairs, tensors) + more) is Ok,
        (header_of(bytes_of_header(version, pairs, tensors) + more)->Ok_0).context_length == Some(
            n,
        ),
{
    lemma_read_header(version, pairs, tensors, more);
    lemma_keys_differ();
    lemma_arch_kept(pairs, i, arch, j);
    assert(pairs.take(j + 1).drop_last() =~= pairs.take(j));
    assert(pairs.take(j + 1).last() == pairs[j]);
    lemma_said_last(nothing_said(), pairs.take(j + 1));
    let key = utf8_lossy(arch) + ".context_length"@;
    assert(key.subrange(key.len() - ".context_length"@.len(), key.len() as int)
        =~= ".context_length"@);
    assert(ends_with(key, ".context_length"@));
    lemma_ctx_kept(pairs, i, j, arch, n, pairs.len() as int);
    assert(pairs.take(pairs.len() as int) =~= pairs);
}

proof fn lemma_arch_kept(v: Seq<(Seq<u8>, Held)>, i: int, arch: Seq<u8>, k: int)
    requires
        0 <= i < k <= v.len(),
        utf8_lossy(v[i].0) == "general.architecture"@,
        v[i].1 == Held::Text(arch),
        forall|k: int| i < k < v.len() ==> utf8_lossy((#[trigger] v[k]).0) != "general.architecture"@,
    ensures
        said_by_all(nothing_said(), v.take(k)).meta.architecture == Some(utf8_lossy(arch)),
    decreases k,
{
    lemma_keys_differ();
    lemma_said_last(nothing_said(), v.take(k));
    assert(v.take(k).drop_last() =~= v.take(k - 1));
    assert(v.take(k).last() == v[k - 1]);
    if k - 1 > i {
        lemma_arch_kept(v, i, arch, k - 1);
    }
}

proof fn lemma_ctx_kept(
    v: Seq<(Seq<u8>, Held)>,
    i: int,
    j: int,
    arch: Seq<u8>,
    n: u64,
    k: int,
)
    requires
        0 <= i < j < k <= v.len(),
        utf8_lossy(v[i].0) == "general.architecture"@,
        v[i].1 == Held::Text(arch),
        forall|k: int| i < k < v.len() ==> utf8_lossy((#[trigger] v[k]).0) != "general.architecture"@,
        said_by_all(nothing_said(), v.take(j + 1)).arch_ctx == Some(n),
        forall|k: int|
            j < k < v.len() ==> utf8_lossy((#[trigger] v[k]).0) != utf8_lossy(arch)
                + ".context_length"@,
    ensures
        said_by_all(nothing_said(), v.take(k)).arch_ctx == Some(n),
    decreases k,
{
    if k > j + 1 {
        lemma_ctx_kept(v, i, j, arch, n, k - 1);
        lemma_arch_kept(v, i, arch, k - 1);
        lemma_said_last(nothing_said(), v.take(k));
        assert(v.take(k).drop_last() =~= v.take(k - 1));
        assert(v.take(k).last() == v[k - 1]);
    }
}

/// Where no architecture is declared, the first number under any key that ends
/// in `.context_length` is the context that is told; there is none where no
/// such key holds a number.
pub proof fn any_stated_context_is_told(
    version: u32,
    pairs: Seq<(Seq<u8>, Held)>,
    tensors: Seq<TensorEntry>,
    more: Seq<u8>,
)
    requires
        plausible(version, pairs, tensors),
        forall|k: int|
            0 <= k < pairs.len() ==> utf8_lossy((#[trigger] pairs[k]).0) != "general.architecture"@,
    ensures
        header_of(bytes_of_header(version, pairs, tensors) + more) is Ok,
        ({
            let told = (header_of(
                bytes_of_header(version, pairs, tensors) + more,
            )->Ok_0).context_length;
            &&& told matches Some(n) ==> exists|j: int|
                0 <= j < pairs.len() && ends_with(
                    utf8_lossy((#[trigger] pairs[j]).0),
                    ".context_length"@,
                ) && number_held(pairs[j].1) == Some(n) && forall|k: int|
                    0 <= k < j && ends_with(
                        utf8_lossy((#[trigger] pairs[k]).0),
                        ".context_length"@,
                    ) ==> number_held(pairs[k].1) is None
            &&& told is None ==> forall|k: int|
                0 <= k < pairs.len() && ends_with(
                    utf8_lossy((#[trigger] pairs[k]).0),
                    ".context_length"@,
                ) ==> number_held(pairs[k].1) is None
        }),
{
    lemma_read_header(version, pairs, tensors, more);
    lemma_other_ctx(pairs);
}

proof fn lemma_other_ctx(v: Seq<(Seq<u8>, Held)>)
    requires
        forall|k: int|
            0 <= k < v.len() ==> utf8_lossy((#[trigger] v[k]).0) != "general.architecture"@,
    ensures
        ({
            let s = said_by_all(nothing_said(), v);
            &&& s.arch_ctx is None
            &&& s.meta.architecture is None
            &&& s.other_ctx matches Some(n) ==> exists|j: int|
                0 <= j < v.len() && ends_with(utf8_lossy((#[trigger] v[j]).0), ".context_length"@)
                    && number_held(v[j].1) == Some(n) && forall|k: int|
                    0 <= k < j && ends_with(utf8_lossy((#[trigger] v[k]).0), ".context_length"@)
                        ==> number_held(v[k].1) is None
            &&& s.other_ctx is None ==> forall|k: int|
                0 <= k < v.len() && ends_with(utf8_lossy((#[trigger] v[k]).0), ".context_length"@)
                    ==> number_held(v[k].1) is None
        }),
    decreases v.len(),
{
    if v.len() > 0 {
        let w = v.drop_last();
        assert forall|k: int| 0 <= k < w.len() implies w[k] == #[trigger] v[k] by {}
        assert forall|k: int| 0 <= k < w.len() implies utf8_lossy((#[trigger] w[k]).0)
            != "general.architecture"@ by {
            assert(w[k] == v[k]);
        }
        assert(v.last() == v[v.len() - 1]);
        lemma_keys_differ();
        lemma_other_ctx(w);
        lemma_said_last(nothing_said(), v);
        let before = said_by_all(nothing_said(), w);
        let after = said_by_all(nothing_said(), v);
        if let Some(n) = before.other_ctx {
            let j = choose|j: int|
                0 <= j < w.len() && ends_with(utf8_lossy((#[trigger] w[j]).0), ".context_length"@)
                    && number_held(w[j].1) == Some(n) && forall|k: int|
                    0 <= k < j && ends_with(utf8_lossy((#[trigger] w[k]).0), ".context_length"@)
                        ==> number_held(w[k].1) is None;
            assert(v[j] == w[j]);
            assert forall|k: int|
                0 <= k < j && ends_with(
                    utf8_lossy((#[trigger] v[k]).0),
                    ".context_length"@,
                ) implies number_held(v[k].1) is None by {
                assert(w[k] == v[k]);
            }
            assert(after.other_ctx == Some(n));
        } else {
            assert forall|k: int|
                0 <= k < v.len() - 1 && ends_with(
                    utf8_lossy((#[trigger] v[k]).0),
                    ".context_length"@,
                ) implies number_held(v[k].1) is None by {
                assert(w[k] == v[k]);
            }
            if after.other_ctx is Some {
                let j = v.len() - 1;
                assert(ends_with(utf8_lossy(v[j].0), ".context_length"@));
            }
        }
    }
}

/// What is read is a header: its first bytes are the letters GGUF, its version
/// is 2 or 3, and it claims no more than 100000 pairs.
pub proof fn nothing_else_is_read(d: Seq<u8>)
    requires
        header_of(d) is Ok,
    ensures
        d.len() >= 24,
        d[0] == 71 && d[1] == 71 && d[2] == 85 && d[3] == 70,
        d[4] == 2 || d[4] == 3,
        d[5] == 0 && d[6] == 0 && d[7] == 0,
        d[16] + d[17] * 256 + d[18] * 65_536 <= 100_000,
        d[19] == 0 && d[20] == 0 && d[21] == 0 && d[22] == 0 && d[23] == 0,
{
    lemma_front_is_read(d);
    lemma_small_number(d[0], d[1], d[2], d[3]);
    lemma_small_number(d[4], d[5], d[6], d[7]);
    lemma_small_number(d[16], d[17], d[18], d[19]);
    lemma_small_number(d[20], d[21], d[22], d[23]);
}

/// The three numbers that a header is accepted by.
proof fn lemma_front_is_read(d: Seq<u8>)
    requires
        header_of(d) is Ok,
    ensures
        d.len() >= 24,
        d[0] + d[1] * 0x100 + d[2] * 0x1_0000 + d[3] * 0x100_0000 == 0x4655_4747,
        2 <= d[4] + d[5] * 0x100 + d[6] * 0x1_0000 + d[7] * 0x100_0000 <= 3,
        d[16] + d[17] * 0x100 + d[18] * 0x1_0000 + d[19] * 0x100_0000 <= 100_000,
        d[20] + d[21] * 0x100 + d[22] * 0x1_0000 + d[23] * 0x100_0000 == 0,
{
    assert(u32_at(d, 0) is Ok && u32_at(d, 4) is Ok && u64_at(d, 16) is Ok);
    assert(le32(d, 0) < 0x1_0000_0000 && le32(d, 4) < 0x1_0000_0000);
    assert(le32(d, 16) < 0x1_0000_0000 && le32(d, 20) < 0x1_0000_0000);
    assert(le64(d, 16) <= u64::MAX);
}

/// What four bytes of a small number, or of the format's letters, are.
proof fn lemma_small_number(a: u8, b: u8, c: u8, e: u8)
    ensures
        ({
            let n = a + b * 0x100 + c * 0x1_0000 + e * 0x100_0000;
            &&& n == 0x4655_4747 ==> a == 71 && b == 71 && c == 85 && e == 70
            &&& n <= 3 ==> n == a && b == 0 && c == 0 && e == 0
            &&& n <= 100_000 ==> e == 0
        }),
{
}

/// The file types with a name of their own.
pub open spec fn named_types() -> Seq<(u64, Seq<char>)> {
    seq![
        (0u64, "F32"@),
        (1u64, "F16"@),
        (2u64, "Q4_0"@),
        (3u64, "Q4_1"@),
        (7u64, "Q8_0"@),
        (8u64, "Q5_0"@),
        (9u64, "Q5_1"@),
        (10u64, "Q2_K"@),
        (11u64, "Q3_K_S"@),
        (12u64, "Q3_K_M"@),
        (13u64, "Q3_K_L"@),
        (14u64, "Q4_K_S"@),
        (15u64, "Q4_K_M"@),
        (16u64, "Q5_K_S"@),
        (17u64, "Q5_K_M"@),
        (18u64, "Q6_K"@),
        (19u64, "IQ2_XXS"@),
        (20u64, "IQ2_XS"@),
        (24u64, "IQ4_NL"@),
        (25u64, "IQ4_XS"@),
        (30u64, "BF16"@),
    ]
}

/// A file type is told by its name, and by its number where it has none.
pub proof fn file_types_are_told_by_name(n: u64)
    ensures
        forall|i: int|
            0 <= i < named_types().len() ==> file_type_text((#[trigger] named_types()[i]).0)
                == named_types()[i].1,
        (forall|i: int| 0 <= i < named_types().len() ==> (#[trigger] named_types()[i]).0 != n)
            ==> file_type_text(n) == "type "@ + dec(n as nat),
{
    let t = named_types();
    if forall|i: int| 0 <= i < t.len() ==> (#[trigger] t[i]).0 != n {
        assert(t[0].0 == 0);
        assert(t[1].0 == 1);
        assert(t[2].0 == 2);
        assert(t[3].0 == 3);
        assert(t[4].0 == 7);
        assert(t[5].0 == 8);
        assert(t[6].0 == 9);
        assert(t[7].0 == 10);
        assert(t[8].0 == 11);
        assert(t[9].0 == 12);
        assert(t[10].0 == 13);
        assert(t[11].0 == 14);
        assert(t[12].0 == 15);
        assert(t[13].0 == 16);
        assert(t[14].0 == 17);
        assert(t[15].0 == 18);
        assert(t[16].0 == 19);
        assert(t[17].0 == 20);
        assert(t[18].0 == 24);
        assert(t[19].0 == 25);
        assert(t[20].0 == 30);
    }
}

} // verus!
