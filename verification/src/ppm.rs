//! Serialization of a pixel grid to the plain-text RGB raster format whose
//! magic token is `P3`: a three-line header, then each pixel row as decimal
//! channel bytes separated by single spaces, long rows wrapped after a fixed
//! number of pixel triples, and a single extra trailing newline.
//!
//! A channel arrives as the IEEE 754 bit pattern of its `f64` value `v` and
//! leaves as the byte `round(clamp(v, 0, 1) * 255)`, rounding halves away
//! from zero. On the bit pattern that is exact integer arithmetic: a finite
//! positive `v < 1.0` equals `mantissa / 2^scale`, so the byte is
//! `(255 * mantissa + 2^(scale-1)) / 2^scale` with flooring division.

use vstd::arithmetic::power2::{
    lemma2_to64, lemma2_to64_rest, lemma_pow2_adds, lemma_pow2_pos, lemma_pow2_strictly_increases,
    pow2,
};
use crate::color::Color;
use vstd::bits::{lemma_u64_shl_is_mul, lemma_u64_shr_is_div};
use vstd::prelude::*;
use vstd::string::StringExecFns;

verus! {

/// Number of pixel triples after which a row is wrapped onto a new line.
pub const PIXELS_PER_LINE: u32 = 50;

/// Exponent field (11 bits) of an `f64` bit pattern.
pub open spec fn f64_exponent(bits: u64) -> u64 {
    (bits >> 52) & 0x7FF
}

/// Fraction field (low 52 bits) of an `f64` bit pattern.
pub open spec fn f64_fraction(bits: u64) -> u64 {
    bits & 0x000F_FFFF_FFFF_FFFF
}

/// Whether an `f64` bit pattern denotes a NaN.
pub open spec fn f64_is_nan(bits: u64) -> bool {
    f64_exponent(bits) == 0x7FF && f64_fraction(bits) != 0
}

/// Whether an `f64` bit pattern has its sign bit set (denotes a negative
/// value, negative zero included).
pub open spec fn f64_is_sign_negative(bits: u64) -> bool {
    bits >> 63 == 1
}

/// Integer mantissa of a finite `f64`: the fraction with the implicit
/// leading bit added for normal values.
pub open spec fn f64_mantissa(bits: u64) -> nat {
    if f64_exponent(bits) == 0 {
        f64_fraction(bits) as nat
    } else {
        (pow2(52) + f64_fraction(bits)) as nat
    }
}

/// Binary scale of a finite `f64`: the denoted magnitude is
/// `f64_mantissa(bits) / pow2(f64_scale(bits))`.
pub open spec fn f64_scale(bits: u64) -> nat {
    if f64_exponent(bits) == 0 {
        1074
    } else {
        (1075 - f64_exponent(bits)) as nat
    }
}

/// The byte a color channel serializes to: `round(clamp(v, 0, 1) * 255)`
/// for the `f64` value `v` whose bit pattern is `bits`, halves rounded away
/// from zero, and NaN taken as 0.
///
/// Values at least `1.0` (the positive exponent field is at least 1023,
/// infinity included) saturate to 255; NaN, negative values and negative
/// zero saturate to 0; a finite positive `v < 1.0` is `m / 2^k` with
/// mantissa `m` and scale `k`, so the rounded product is
/// `(255 * m + 2^(k-1)) / 2^k`.
pub open spec fn channel_byte(bits: u64) -> nat {
    if f64_is_nan(bits) {
        0
    } else if f64_is_sign_negative(bits) {
        0
    } else if f64_exponent(bits) >= 1023 {
        255
    } else {
        (255 * f64_mantissa(bits) + pow2((f64_scale(bits) - 1) as nat)) / pow2(f64_scale(bits))
    }
}

/// The serialized byte of one color channel, given as the IEEE 754 bit
/// pattern of its `f64` value.
pub fn quantize_channel(bits: u64) -> (byte: u8)
    ensures
        byte == channel_byte(bits),
{
    let exponent = (bits >> 52) & 0x7FF;
    let fraction = bits & 0x000F_FFFF_FFFF_FFFF;
    proof {
        assert(exponent < 2048 && fraction < 0x0010_0000_0000_0000u64 && (bits >> 63 == 0 || bits
            >> 63 == 1)) by (bit_vector)
            requires
                exponent == (bits >> 52) & 0x7FF,
                fraction == bits & 0x000F_FFFF_FFFF_FFFF,
        ;
        lemma2_to64();
        lemma2_to64_rest();
    }
    if exponent == 0x7FF && fraction != 0 {
        0
    } else if bits >> 63 == 1 {
        0
    } else if exponent >= 1023 {
        255
    } else if exponent <= 1011 {
        proof {
            lemma_small_value_rounds_to_zero(bits);
        }
        0
    } else {
        let mantissa = 0x0010_0000_0000_0000u64 | fraction;
        let shift = 1075 - exponent;
        proof {
            assert(mantissa == pow2(52) + fraction && mantissa < pow2(53)) by {
                assert(mantissa == 0x0010_0000_0000_0000u64 + fraction && mantissa
                    < 0x0020_0000_0000_0000u64) by (bit_vector)
                    requires
                        fraction < 0x0010_0000_0000_0000u64,
                        mantissa == 0x0010_0000_0000_0000u64 | fraction,
                ;
            }
            assert(mantissa == f64_mantissa(bits) && shift == f64_scale(bits));
            lemma_rounding_arithmetic_fits(mantissa, shift);
            lemma_u64_shl_is_mul(1u64, (shift - 1) as u64);
            lemma_u64_shr_is_div((255 * mantissa + pow2((shift - 1) as nat)) as u64, shift as u64);
        }
        let rounded = (255 * mantissa + (1u64 << (shift - 1))) >> shift;
        proof {
            lemma_rounded_channel_fits_in_byte(mantissa as nat, shift as nat);
        }
        rounded as u8
    }
}

/// A finite channel value below `2^-11` (exponent field at most 1011,
/// subnormals included) scales to less than one eighth and rounds to the
/// byte 0.
proof fn lemma_small_value_rounds_to_zero(bits: u64)
    requires
        !f64_is_nan(bits),
        !f64_is_sign_negative(bits),
        f64_exponent(bits) <= 1011,
    ensures
        channel_byte(bits) == 0,
{
    let m = f64_mantissa(bits);
    let k = f64_scale(bits);
    assert(f64_fraction(bits) < pow2(52)) by {
        assert(bits & 0x000F_FFFF_FFFF_FFFF < 0x0010_0000_0000_0000u64) by (bit_vector);
        lemma2_to64();
        lemma2_to64_rest();
    }
    assert(m < pow2(53)) by {
        lemma_pow2_adds(52, 1);
        lemma2_to64();
        lemma2_to64_rest();
    }
    assert(k >= 64);
    assert(255 * m < 255 * pow2(53)) by {
        lemma_pow2_pos(53);
        vstd::arithmetic::mul::lemma_mul_strict_inequality(m as int, pow2(53) as int, 255);
        vstd::arithmetic::mul::lemma_mul_is_commutative(m as int, 255);
        vstd::arithmetic::mul::lemma_mul_is_commutative(pow2(53) as int, 255);
    }
    assert(255 * pow2(53) < pow2(61)) by {
        lemma_pow2_adds(53, 8);
        lemma2_to64();
        vstd::arithmetic::mul::lemma_mul_strict_inequality(255, pow2(8) as int, pow2(53) as int);
        vstd::arithmetic::mul::lemma_mul_is_commutative(pow2(53) as int, 255);
        vstd::arithmetic::mul::lemma_mul_is_commutative(pow2(53) as int, pow2(8) as int);
    }
    assert(pow2(61) <= pow2((k - 1) as nat)) by {
        if 61 < k - 1 {
            lemma_pow2_strictly_increases(61, (k - 1) as nat);
        }
    }
    assert(255 * m + pow2((k - 1) as nat) < pow2(k)) by {
        lemma_pow2_adds((k - 1) as nat, 1);
        lemma2_to64();
    }
    assert((255 * m + pow2((k - 1) as nat)) / pow2(k) == 0) by {
        lemma_pow2_pos(k);
        vstd::arithmetic::div_mod::lemma_basic_div(
            (255 * m + pow2((k - 1) as nat)) as int,
            pow2(k) as int,
        );
    }
}

/// For a normal channel value in `[2^-12, 1)` the rounding arithmetic fits
/// in a `u64`: the scale is between 53 and 63 and the numerator is below
/// `2^63 + 2^62`.
proof fn lemma_rounding_arithmetic_fits(mantissa: u64, shift: u64)
    requires
        pow2(52) <= mantissa < pow2(53),
        53 <= shift <= 63,
    ensures
        1 * pow2((shift - 1) as nat) <= u64::MAX,
        255 * mantissa + pow2((shift - 1) as nat) < pow2(63) + pow2(62),
        pow2(63) + pow2(62) <= u64::MAX,
{
    lemma2_to64();
    lemma2_to64_rest();
    vstd::bits::lemma_u64_pow2_no_overflow((shift - 1) as nat);
    assert(255 * mantissa < 255 * pow2(53)) by {
        vstd::arithmetic::mul::lemma_mul_strict_inequality(mantissa as int, pow2(53) as int, 255);
        vstd::arithmetic::mul::lemma_mul_is_commutative(mantissa as int, 255);
        vstd::arithmetic::mul::lemma_mul_is_commutative(pow2(53) as int, 255);
    }
    assert(255 * pow2(53) < pow2(61)) by {
        lemma_pow2_adds(53, 8);
        vstd::arithmetic::mul::lemma_mul_strict_inequality(255, pow2(8) as int, pow2(53) as int);
        vstd::arithmetic::mul::lemma_mul_is_commutative(pow2(53) as int, 255);
        vstd::arithmetic::mul::lemma_mul_is_commutative(pow2(53) as int, pow2(8) as int);
    }
    assert(pow2(61) < pow2(62) && pow2(62) <= pow2(63)) by {
        lemma_pow2_strictly_increases(61, 62);
        lemma_pow2_strictly_increases(62, 63);
    }
    assert(pow2((shift - 1) as nat) <= pow2(62)) by {
        if shift - 1 < 62 {
            lemma_pow2_strictly_increases((shift - 1) as nat, 62);
        }
    }
    assert(pow2(63) + pow2(62) <= u64::MAX);
}

/// The character for one decimal digit.
pub open spec fn digit_char(d: nat) -> char {
    if d == 0 {
        '0'
    } else if d == 1 {
        '1'
    } else if d == 2 {
        '2'
    } else if d == 3 {
        '3'
    } else if d == 4 {
        '4'
    } else if d == 5 {
        '5'
    } else if d == 6 {
        '6'
    } else if d == 7 {
        '7'
    } else if d == 8 {
        '8'
    } else {
        '9'
    }
}

/// The decimal numeral of `n`, most significant digit first, no sign and no
/// leading zeros (`0` itself is the single character `0`).
pub open spec fn decimal_str(n: nat) -> Seq<char>
    decreases n,
{
    if n < 10 {
        seq![digit_char(n)]
    } else {
        decimal_str(n / 10).push(digit_char(n % 10))
    }
}

/// The three serialized channel bytes of one pixel, space-separated.
pub open spec fn pixel_str(c: Color) -> Seq<char> {
    decimal_str(channel_byte(c.r)) + seq![' '] + decimal_str(channel_byte(c.g)) + seq![' ']
        + decimal_str(channel_byte(c.b))
}

/// What stands before the pixel at column `x > 0` of a row: a newline at
/// each multiple of `PIXELS_PER_LINE` (wrapping the row), a space otherwise.
pub open spec fn separator(x: int) -> Seq<char> {
    if x % (PIXELS_PER_LINE as int) == 0 {
        seq!['\n']
    } else {
        seq![' ']
    }
}

/// The text of the first `n` pixels of a row: their triples, each after the
/// separator its column calls for.
pub open spec fn row_prefix_str(row: Seq<Color>, n: int) -> Seq<char>
    decreases n,
{
    if n <= 0 {
        Seq::empty()
    } else if n == 1 {
        pixel_str(row[0])
    } else {
        row_prefix_str(row, n - 1) + separator(n - 1) + pixel_str(row[n - 1])
    }
}

/// The full text of one row: its pixel triples, wrapped, and a final
/// newline. An empty row is a single empty line.
pub open spec fn row_str(row: Seq<Color>) -> Seq<char> {
    row_prefix_str(row, row.len() as int) + seq!['\n']
}

/// The text of the first `n` rows of a row-major grid of the given width.
pub open spec fn rows_prefix_str(pixels: Seq<Color>, width: nat, n: int) -> Seq<char>
    decreases n,
{
    if n <= 0 {
        Seq::empty()
    } else {
        rows_prefix_str(pixels, width, n - 1) + row_str(
            pixels.subrange((n - 1) * (width as int), n * (width as int)),
        )
    }
}

/// The three header lines: the magic token `P3`, the dimensions, and the
/// maximum channel value 255.
pub open spec fn header_str(width: nat, height: nat) -> Seq<char> {
    seq!['P', '3', '\n'] + decimal_str(width) + seq![' '] + decimal_str(height) + seq![
        '\n',
        '2',
        '5',
        '5',
        '\n',
    ]
}

/// The whole serialized document: header, the rows top to bottom, and one
/// extra trailing newline.
pub open spec fn document_str(width: nat, height: nat, pixels: Seq<Color>) -> Seq<char> {
    header_str(width, height) + rows_prefix_str(pixels, width, height as int) + seq!['\n']
}

/// Every serialized document ends with a newline character.
pub proof fn lemma_document_ends_with_newline(width: nat, height: nat, pixels: Seq<Color>)
    ensures
        document_str(width, height, pixels).len() > 0,
        document_str(width, height, pixels).last() == '\n',
{
}

fn append_digit(text: &mut String, d: u32)
    requires
        d < 10,
    ensures
        final(text)@ == old(text)@ + seq![digit_char(d as nat)],
{
    let piece: &str = if d == 0 {
        "0"
    } else if d == 1 {
        "1"
    } else if d == 2 {
        "2"
    } else if d == 3 {
        "3"
    } else if d == 4 {
        "4"
    } else if d == 5 {
        "5"
    } else if d == 6 {
        "6"
    } else if d == 7 {
        "7"
    } else if d == 8 {
        "8"
    } else {
        "9"
    };
    proof {
        reveal_strlit("0");
        reveal_strlit("1");
        reveal_strlit("2");
        reveal_strlit("3");
        reveal_strlit("4");
        reveal_strlit("5");
        reveal_strlit("6");
        reveal_strlit("7");
        reveal_strlit("8");
        reveal_strlit("9");
        assert(piece@ =~= seq![digit_char(d as nat)]);
    }
    text.append(piece);
}

/// Appends the decimal numeral of `n`.
fn append_decimal(text: &mut String, n: u32)
    ensures
        final(text)@ == old(text)@ + decimal_str(n as nat),
    decreases n,
{
    if n >= 10 {
        append_decimal(text, n / 10);
        append_digit(text, n % 10);
        proof {
            assert(text@ =~= old(text)@ + decimal_str(n as nat));
        }
    } else {
        append_digit(text, n);
    }
}

/// Appends the three serialized channel bytes of one pixel.
fn append_pixel(text: &mut String, c: &Color)
    ensures
        final(text)@ == old(text)@ + pixel_str(*c),
{
    proof {
        reveal_strlit(" ");
    }
    append_decimal(text, quantize_channel(c.r) as u32);
    text.append(" ");
    append_decimal(text, quantize_channel(c.g) as u32);
    text.append(" ");
    append_decimal(text, quantize_channel(c.b) as u32);
    proof {
        assert(" "@ =~= seq![' ']);
        assert(text@ =~= old(text)@ + pixel_str(*c));
    }
}

/// Serializes a row-major grid of the given dimensions to the raster text
/// format.
pub fn render(width: u32, height: u32, pixels: &Vec<Color>) -> (text: String)
    requires
        pixels@.len() == (width as int) * (height as int),
    ensures
        text@ == document_str(width as nat, height as nat, pixels@),
{
    let ghost header: Seq<char> = header_str(width as nat, height as nat);
    let mut text = String::new();
    proof {
        reveal_strlit("P3\n");
        reveal_strlit(" ");
        reveal_strlit("\n255\n");
        reveal_strlit("\n");
    }
    text.append("P3\n");
    append_decimal(&mut text, width);
    text.append(" ");
    append_decimal(&mut text, height);
    text.append("\n255\n");
    proof {
        assert(text@ =~= header);
    }
    let count = pixels.len();
    let mut y: u32 = 0;
    while y < height
        invariant
            y <= height,
            count == pixels@.len(),
            pixels@.len() == (width as int) * (height as int),
            header == header_str(width as nat, height as nat),
            text@ == header + rows_prefix_str(pixels@, width as nat, y as int),
        decreases height - y,
    {
        proof {
            assert((y as int) * (width as int) >= 0 && (y as int) * (width as int) + (width as int)
                <= (width as int) * (height as int)) by (nonlinear_arith)
                requires
                    0 <= (y as int) < (height as int),
            ;
        }
        let ghost row: Seq<Color> = pixels@.subrange(
            (y as int) * (width as int),
            (y as int) * (width as int) + (width as int),
        );
        let mut x: u32 = 0;
        while x < width
            invariant
                x <= width,
                y < height,
                count == pixels@.len(),
                pixels@.len() == (width as int) * (height as int),
                (y as int) * (width as int) >= 0,
                (y as int) * (width as int) + (width as int) <= pixels@.len(),
                row == pixels@.subrange(
                    (y as int) * (width as int),
                    (y as int) * (width as int) + (width as int),
                ),
                row.len() == width as int,
                header == header_str(width as nat, height as nat),
                text@ == header + rows_prefix_str(pixels@, width as nat, y as int)
                    + row_prefix_str(row, x as int),
            decreases width - x,
        {
            let ghost before: Seq<char> = text@;
            if x > 0 {
                if x % PIXELS_PER_LINE == 0 {
                    proof {
                        reveal_strlit("\n");
                        assert("\n"@ =~= separator(x as int));
                    }
                    text.append("\n");
                } else {
                    proof {
                        reveal_strlit(" ");
                        assert(" "@ =~= separator(x as int));
                    }
                    text.append(" ");
                }
                proof {
                    assert(text@ == before + separator(x as int));
                }
            }
            proof {
                assert(0 <= (y as int) * (width as int) + (x as int) < (width as int) * (height
                    as int)) by (nonlinear_arith)
                    requires
                        0 <= (x as int) < (width as int),
                        0 <= (y as int) < (height as int),
                ;
            }
            let index = (y as usize) * (width as usize) + (x as usize);
            let c = pixels[index];
            append_pixel(&mut text, &c);
            proof {
                assert(index == (y as int) * (width as int) + (x as int));
                assert(row[x as int] == pixels@[(y as int) * (width as int) + (x as int)]);
                assert(row[x as int] == c);
                if x == 0 {
                    assert(row_prefix_str(row, 1) == pixel_str(row[0]));
                    assert(text@ =~= header + rows_prefix_str(pixels@, width as nat, y as int)
                        + row_prefix_str(row, x as int + 1));
                } else {
                    assert(row_prefix_str(row, x as int + 1) == row_prefix_str(row, x as int)
                        + separator(x as int) + pixel_str(row[x as int]));
                    assert(text@ =~= header + rows_prefix_str(pixels@, width as nat, y as int)
                        + row_prefix_str(row, x as int + 1));
                }
            }
            x += 1;
        }
        proof {
            reveal_strlit("\n");
            assert("\n"@ =~= seq!['\n']);
        }
        text.append("\n");
        proof {
            assert((y as int + 1) * (width as int) == (y as int) * (width as int) + (width as int))
                by (nonlinear_arith);
            assert(rows_prefix_str(pixels@, width as nat, y as int + 1) == rows_prefix_str(
                pixels@,
                width as nat,
                y as int,
            ) + row_str(row));
            assert(text@ =~= header + rows_prefix_str(pixels@, width as nat, y as int + 1));
        }
        y += 1;
    }
    text.append("\n");
    proof {
        assert("\n"@ =~= seq!['\n']);
        assert(text@ =~= document_str(width as nat, height as nat, pixels@));
    }
    text
}

/// The rounded channel value is at most 255, so it fits in a byte.
proof fn lemma_rounded_channel_fits_in_byte(mantissa: nat, shift: nat)
    requires
        mantissa < pow2(53),
        53 <= shift <= 63,
    ensures
        (255 * mantissa + pow2((shift - 1) as nat)) / pow2(shift) <= 255,
{
    lemma_pow2_pos(shift);
    lemma_pow2_pos((shift - 1) as nat);
    assert(mantissa < pow2(shift)) by {
        if 53 < shift {
            lemma_pow2_strictly_increases(53, shift);
        }
    }
    assert(255 * mantissa <= 255 * (pow2(shift) - 1)) by {
        vstd::arithmetic::mul::lemma_mul_inequality(mantissa as int, pow2(shift) - 1, 255);
        vstd::arithmetic::mul::lemma_mul_is_commutative(mantissa as int, 255);
        vstd::arithmetic::mul::lemma_mul_is_commutative(pow2(shift) - 1, 255);
    }
    assert(pow2((shift - 1) as nat) < pow2(shift)) by {
        lemma_pow2_strictly_increases((shift - 1) as nat, shift);
    }
    assert(255 * mantissa + pow2((shift - 1) as nat) < 256 * pow2(shift));
    assert((255 * mantissa + pow2((shift - 1) as nat)) / pow2(shift) < 256) by {
        vstd::arithmetic::div_mod::lemma_multiply_divide_lt(
            (255 * mantissa + pow2((shift - 1) as nat)) as int,
            pow2(shift) as int,
            256,
        );
    }
}

} // verus!
