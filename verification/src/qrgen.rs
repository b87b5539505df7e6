//! QR symbol generation into a [`BitMatrix`], the mirror image of decoding:
//! the symbol itself is encoded by the `qrcode` crate.
use crate::bitmatrix::{words_per_row_of, BitMatrix};
use qrcode::types::QrError;
use qrcode::{Color, EcLevel};
use vstd::prelude::*;

verus! {

/// Why the `qrcode` crate refused to encode a payload: one variant per
/// variant of its `QrError`.
#[derive(Clone, Copy, Debug, PartialEq, Eq, Structural)]
pub enum QrFailure {
    /// The data is too long for the version.
    DataTooLong,
    /// The version / error-correction combination is invalid.
    InvalidVersion,
    /// Some characters are not supported by the version.
    UnsupportedCharacterSet,
    /// The ECI designator is out of range.
    InvalidEciDesignator,
    /// A character outside the character set was found.
    InvalidCharacter,
}

/// The symbol `qrcode` encodes for `payload` at error-correction level
/// `ecc` (0..=3 for L/M/Q/H) in the smallest version that fits: its width
/// and its modules row-major (`true` = dark), or why it could not.
pub uninterp spec fn qr_symbol_auto(payload: Seq<char>, ecc: u8) -> Result<(usize, Seq<bool>), QrFailure>;

/// The symbol `qrcode` encodes for `payload` at exactly `version` and level
/// `ecc`, or why it could not.
pub uninterp spec fn qr_symbol_versioned(payload: Seq<char>, version: u32, ecc: u8) -> Result<
    (usize, Seq<bool>),
    QrFailure,
>;

/// `qrcode::QrCode::with_error_correction_level` on the payload's UTF-8
/// bytes at level L/M/Q/H for `ecc` 0/1/2/3. Claims: the result is the
/// named symbol, or the named failure (its `QrError` variant mapped one for
/// one); a symbol holds `width²` modules (the crate allocates its canvas as
/// `width · width` modules and hands every one out in row-major order).
#[verifier::external_body]
fn encode_auto(payload: &str, ecc: u8) -> (r: Result<(usize, Vec<bool>), QrFailure>)
    requires
        ecc <= 3,
    ensures
        match r {
            Ok((width, modules)) => {
                &&& qr_symbol_auto(payload@, ecc) == Ok::<(usize, Seq<bool>), QrFailure>((width, modules@))
                &&& modules@.len() == width * width
            },
            Err(e) => qr_symbol_auto(payload@, ecc) == Err::<(usize, Seq<bool>), QrFailure>(e),
        },
{
    let level = [EcLevel::L, EcLevel::M, EcLevel::Q, EcLevel::H][ecc as usize];
    match qrcode::QrCode::with_error_correction_level(payload.as_bytes(), level) {
        Ok(code) => Ok((code.width(), code.to_colors().into_iter().map(|c| c == Color::Dark).collect())),
        Err(QrError::DataTooLong) => Err(QrFailure::DataTooLong),
        Err(QrError::InvalidVersion) => Err(QrFailure::InvalidVersion),
        Err(QrError::UnsupportedCharacterSet) => Err(QrFailure::UnsupportedCharacterSet),
        Err(QrError::InvalidEciDesignator) => Err(QrFailure::InvalidEciDesignator),
        Err(QrError::InvalidCharacter) => Err(QrFailure::InvalidCharacter),
    }
}

/// `qrcode::QrCode::with_version` on the payload's UTF-8 bytes for
/// `Version::Normal(version)` at level L/M/Q/H for `ecc` 0/1/2/3. Claims the
/// same of its result as [`encode_auto`] does, over the versioned name.
#[verifier::external_body]
fn encode_versioned(payload: &str, version: u32, ecc: u8) -> (r: Result<(usize, Vec<bool>), QrFailure>)
    requires
        1 <= version <= 40,
        ecc <= 3,
    ensures
        match r {
            Ok((width, modules)) => {
                &&& qr_symbol_versioned(payload@, version, ecc) == Ok::<(usize, Seq<bool>), QrFailure>(
                    (width, modules@),
                )
                &&& modules@.len() == width * width
            },
            Err(e) => qr_symbol_versioned(payload@, version, ecc) == Err::<(usize, Seq<bool>), QrFailure>(e),
        },
{
    let level = [EcLevel::L, EcLevel::M, EcLevel::Q, EcLevel::H][ecc as usize];
    match qrcode::QrCode::with_version(payload.as_bytes(), qrcode::Version::Normal(version as i16), level) {
        Ok(code) => Ok((code.width(), code.to_colors().into_iter().map(|c| c == Color::Dark).collect())),
        Err(QrError::DataTooLong) => Err(QrFailure::DataTooLong),
        Err(QrError::InvalidVersion) => Err(QrFailure::InvalidVersion),
        Err(QrError::UnsupportedCharacterSet) => Err(QrFailure::UnsupportedCharacterSet),
        Err(QrError::InvalidEciDesignator) => Err(QrFailure::InvalidEciDesignator),
        Err(QrError::InvalidCharacter) => Err(QrFailure::InvalidCharacter),
    }
}

/// The variant's name, as `{:?}` writes it.
pub open spec fn failure_name(f: QrFailure) -> Seq<char> {
    match f {
        QrFailure::DataTooLong => "DataTooLong"@,
        QrFailure::InvalidVersion => "InvalidVersion"@,
        QrFailure::UnsupportedCharacterSet => "UnsupportedCharacterSet"@,
        QrFailure::InvalidEciDesignator => "InvalidEciDesignator"@,
        QrFailure::InvalidCharacter => "InvalidCharacter"@,
    }
}

/// The decimal digit `d` (0..=9).
pub open spec fn digit_char(d: nat) -> char {
    if d == 0 {
        '0'
    } else if d == 1 {
        '1'
    } else if d == 2 {
        '2'
    } else if d == 3 {
        '3'
    } else if d == 4 {
        '4'
    } else if d == 5 {
        '5'
    } else if d == 6 {
        '6'
    } else if d == 7 {
        '7'
    } else if d == 8 {
        '8'
    } else {
        '9'
    }
}

/// `n` written in decimal, without leading zeros.
pub open spec fn decimal(n: nat) -> Seq<char>
    decreases n,
{
    if n < 10 {
        seq![digit_char(n)]
    } else {
        decimal(n / 10).push(digit_char(n % 10))
    }
}

/// Message for an error-correction index outside 0..=3.
pub open spec fn ecc_message(ecc: u8) -> Seq<char> {
    "generate_qr: ecc must be 0..=3 (L/M/Q/H), got "@ + decimal(ecc as nat)
}

/// Message for a version outside 0..=40.
pub open spec fn version_message(version: u32) -> Seq<char> {
    "generate_qr: version must be 0 (auto) or 1..=40, got "@ + decimal(version as nat)
}

/// Message for a payload the encoder refused.
pub open spec fn encode_message(f: QrFailure, payload_bytes: nat, version: u32, ecc: u8) -> Seq<char> {
    "generate_qr: "@ + failure_name(f) + " (payload "@ + decimal(payload_bytes) + " bytes, version "@
        + decimal(version as nat) + ", ecc "@ + decimal(ecc as nat) + ")"@
}

/// Append the decimal digit `d`.
fn push_digit(s: &mut String, d: u64)
    requires
        d < 10,
    ensures
        final(s)@ == old(s)@.push(digit_char(d as nat)),
{
    let lit = match d {
        0 => "0",
        1 => "1",
        2 => "2",
        3 => "3",
        4 => "4",
        5 => "5",
        6 => "6",
        7 => "7",
        8 => "8",
        _ => "9",
    };
    proof {
        reveal_strlit("0");
        reveal_strlit("1");
        reveal_strlit("2");
        reveal_strlit("3");
        reveal_strlit("4");
        reveal_strlit("5");
        reveal_strlit("6");
        reveal_strlit("7");
        reveal_strlit("8");
        reveal_strlit("9");
    }
    s.append(lit);
    proof {
        assert(s@ =~= old(s)@.push(digit_char(d as nat)));
    }
}

/// Append `n` in decimal.
fn push_decimal(s: &mut String, n: u64)
    ensures
        final(s)@ == old(s)@ + decimal(n as nat),
    decreases n,
{
    if n >= 10 {
        push_decimal(s, n / 10);
    }
    push_digit(s, n % 10);
    proof {
        assert(s@ =~= old(s)@ + decimal(n as nat));
    }
}

/// The string `prefix` followed by `n` in decimal.
fn with_decimal(prefix: &str, n: u64) -> (r: String)
    ensures
        r@ == prefix@ + decimal(n as nat),
{
    let mut s = String::new();
    s.append(prefix);
    push_decimal(&mut s, n);
    proof {
        assert(s@ =~= prefix@ + decimal(n as nat));
    }
    s
}

/// The message for a payload the encoder refused.
fn encode_error(f: QrFailure, payload_bytes: usize, version: u32, ecc: u8) -> (r: String)
    ensures
        r@ == encode_message(f, payload_bytes as nat, version, ecc),
{
    let name = match f {
        QrFailure::DataTooLong => "DataTooLong",
        QrFailure::InvalidVersion => "InvalidVersion",
        QrFailure::UnsupportedCharacterSet => "UnsupportedCharacterSet",
        QrFailure::InvalidEciDesignator => "InvalidEciDesignator",
        QrFailure::InvalidCharacter => "InvalidCharacter",
    };
    let mut s = String::new();
    s.append("generate_qr: ");
    s.append(name);
    s.append(" (payload ");
    push_decimal(&mut s, payload_bytes as u64);
    s.append(" bytes, version ");
    push_decimal(&mut s, version as u64);
    s.append(", ecc ");
    push_decimal(&mut s, ecc as u64);
    s.append(")");
    proof {
        assert(s@ =~= encode_message(f, payload_bytes as nat, version, ecc));
    }
    s
}

/// The symbol [`generate_qr_bits`] asks for: auto-selected for version 0,
/// else the exact version.
pub open spec fn requested_symbol(payload: Seq<char>, version: u32, ecc: u8) -> Result<
    (usize, Seq<bool>),
    QrFailure,
> {
    if version == 0 {
        qr_symbol_auto(payload, ecc)
    } else {
        qr_symbol_versioned(payload, version, ecc)
    }
}

/// The matrix holds exactly the row-major `modules` of a `width`-wide
/// symbol.
pub open spec fn holds_symbol(m: BitMatrix, width: usize, modules: Seq<bool>) -> bool {
    &&& m.wf()
    &&& m.n() == width
    &&& forall|x: int, y: int| 0 <= x < width && 0 <= y < width ==> #[trigger] m.bit(x, y) == modules[y * width + x]
}

/// Generate a QR bit matrix for `payload`. `version` 0 auto-selects the
/// smallest version that fits at level `ecc`; 1..=40 requests that exact
/// version. `ecc` 0..=3 selects L/M/Q/H.
pub fn generate_qr_bits(payload: &str, version: u32, ecc: u8) -> (r: Result<BitMatrix, String>)
    ensures
        ecc > 3 ==> (r matches Err(msg) && msg@ == ecc_message(ecc)),
        ecc <= 3 && version > 40 ==> (r matches Err(msg) && msg@ == version_message(version)),
        ecc <= 3 && version <= 40 ==> match r {
            Ok(m) => (requested_symbol(payload@, version, ecc) matches Ok((width, modules)) && holds_symbol(
                m,
                width,
                modules,
            )),
            Err(msg) => (requested_symbol(payload@, version, ecc) matches Err(f) && msg@ == encode_message(
                f,
                payload.len() as nat,
                version,
                ecc,
            )),
        },
{
    if ecc > 3 {
        return Err(with_decimal("generate_qr: ecc must be 0..=3 (L/M/Q/H), got ", ecc as u64));
    }
    let encoded = if version == 0 {
        encode_auto(payload, ecc)
    } else {
        if version > 40 {
            return Err(with_decimal("generate_qr: version must be 0 (auto) or 1..=40, got ", version as u64));
        }
        encode_versioned(payload, version, ecc)
    };
    let (width, modules) = match encoded {
        Ok(symbol) => symbol,
        Err(f) => return Err(encode_error(f, payload.len(), version, ecc)),
    };
    let count = modules.len();
    proof {
        if width >= 1 {
            let q = words_per_row_of(width as int);
            vstd::arithmetic::div_mod::lemma_fundamental_div_mod(width + 31, 32);
            vstd::arithmetic::div_mod::lemma_mod_pos_bound(width + 31, 32);
            assert(q <= width);
            assert(q * width <= width * width) by (nonlinear_arith)
                requires
                    q <= width,
            ;
        }
    }
    let mut m = BitMatrix::new(width);
    let mut y: usize = 0;
    while y < width
        invariant
            m.wf(),
            m.n() == width,
            modules@.len() == width * width,
            count == modules@.len(),
            y <= width,
            forall|x: int, yy: int|
                0 <= x < width && 0 <= yy < y ==> #[trigger] m.bit(x, yy) == modules@[yy * width + x],
        decreases width - y,
    {
        let mut x: usize = 0;
        while x < width
            invariant
                m.wf(),
                m.n() == width,
                modules@.len() == width * width,
                count == modules@.len(),
                y < width,
                x <= width,
                forall|xx: int, yy: int|
                    0 <= xx < width && (0 <= yy < y || (yy == y && xx < x)) ==> #[trigger] m.bit(xx, yy)
                        == modules@[yy * width + xx],
            decreases width - x,
        {
            proof {
                crate::image::lemma_grid_slot(x as int, y as int, width as int, width as int);
            }
            m.set(x, y, modules[y * width + x]);
            x += 1;
        }
        y += 1;
    }
    Ok(m)
}

} // verus!
