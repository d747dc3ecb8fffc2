//! File-size text and the convertible-format test.

use vstd::prelude::*;
use crate::paths::{extension, path_extension};
use crate::text::{decimal, digit_char, lowercase, push_char, push_decimal, string_texts, to_lowercase};

verus! {

/// Bytes in a kibibyte.
pub const KB: u64 = 1024;
/// Bytes in a mebibyte.
pub const MB: u64 = 1024 * KB;
/// Bytes in a gibibyte.
pub const GB: u64 = 1024 * MB;

/// 2^53: integers below it are exactly representable as `f64`.
pub const F64_EXACT_LIMIT: u128 = 0x20_0000_0000_0000;

/// `n / d` rounded to the nearest integer, ties to the even neighbour.
pub open spec fn round_half_even(n: nat, d: nat) -> nat
    recommends
        d > 0,
{
    let q = n / d;
    let r = n % d;
    if 2 * r > d {
        q + 1
    } else if 2 * r < d {
        q
    } else if q % 2 == 0 {
        q
    } else {
        q + 1
    }
}

/// The spacing of `f64` values around `x` (1 below 2^53, doubling with
/// each further binary digit of `x`).
pub open spec fn f64_spacing(x: nat) -> nat
    decreases x,
{
    if x < F64_EXACT_LIMIT {
        1
    } else {
        2 * f64_spacing(x / 2)
    }
}

/// The integer value of the `f64` nearest to `x` (ties to even), which is
/// what `x as f64` yields for a `u64`.
pub open spec fn nearest_f64(x: nat) -> nat {
    round_half_even(x, f64_spacing(x)) * f64_spacing(x)
}

/// A number of tenths written with one decimal place, e.g. 24 as "2.4".
pub open spec fn tenths_text(t: nat) -> Seq<char> {
    decimal(t / 10) + seq!['.', digit_char(t % 10)]
}

/// The text that `format_file_size` produces: bytes below one KiB as an
/// integer count, larger sizes in KB, MB or GB with one decimal place,
/// rounded as `{:.1}` rounds the `f64` quotient (ties to even).
pub open spec fn file_size_text(bytes: nat) -> Seq<char> {
    if bytes >= GB {
        tenths_text(round_half_even(nearest_f64(bytes) * 10, GB as nat)) + seq![' ', 'G', 'B']
    } else if bytes >= MB {
        tenths_text(round_half_even(bytes * 10, MB as nat)) + seq![' ', 'M', 'B']
    } else if bytes >= KB {
        tenths_text(round_half_even(bytes * 10, KB as nat)) + seq![' ', 'K', 'B']
    } else {
        decimal(bytes) + seq![' ', 'B']
    }
}

fn divide_half_even(n: u128, d: u128) -> (q: u128)
    requires
        d > 0,
        n <= 0x10_0000_0000_0000_0000_0000,
        d <= 0x1_0000_0000_0000_0000,
    ensures
        q == round_half_even(n as nat, d as nat),
        q <= n / d + 1,
{
    let q = n / d;
    let r = n % d;
    assert(q <= n) by (nonlinear_arith)
        requires
            q == n / d,
            d > 0,
    ;
    if 2 * r > d {
        q + 1
    } else if 2 * r < d {
        q
    } else if q % 2 == 0 {
        q
    } else {
        q + 1
    }
}

proof fn lemma_spacing_step(x: nat, p: nat, q: nat)
    requires
        p > 0,
        q == x / p,
        q >= F64_EXACT_LIMIT,
    ensures
        q / 2 == x / (p * 2),
        f64_spacing(q) == 2 * f64_spacing(q / 2),
{
    vstd::arithmetic::div_mod::lemma_div_denominator(x as int, p as int, 2);
}

/// The value of `x as f64`, as an integer.
fn nearest_f64_value(x: u64) -> (f: u128)
    ensures
        f == nearest_f64(x as nat),
        f <= 0x1_0000_0000_0000_1000,
{
    let xw = x as u128;
    let mut q: u128 = xw;
    let mut p: u128 = 1;
    while q >= F64_EXACT_LIMIT
        invariant
            p > 0,
            p < 4096,
            q == xw / p,
            xw == x as u128,
            f64_spacing(x as nat) == p * f64_spacing(q as nat),
        decreases q,
    {
        proof {
            lemma_spacing_step(x as nat, p as nat, q as nat);
            assert(p * F64_EXACT_LIMIT <= xw) by (nonlinear_arith)
                requires
                    q == xw / p,
                    p > 0,
                    q >= F64_EXACT_LIMIT,
            ;
            assert(p * (2 * f64_spacing((q / 2) as nat)) == (p * 2) * f64_spacing((q / 2) as nat))
                by (nonlinear_arith);
        }
        q = q / 2;
        p = p * 2;
    }
    let r = xw % p;
    proof {
        assert(xw == p * q + r) by (nonlinear_arith)
            requires
                q == xw / p,
                r == xw % p,
                p > 0,
        ;
        assert(r < p) by (nonlinear_arith)
            requires
                r == xw % p,
                p > 0,
        ;
    }
    let rounded = if 2 * r > p || (2 * r == p && q % 2 == 1) {
        q + 1
    } else {
        q
    };
    proof {
        assert(f64_spacing(q as nat) == 1);
        assert(p * f64_spacing(q as nat) == p) by (nonlinear_arith)
            requires
                f64_spacing(q as nat) == 1,
        ;
        assert(f64_spacing(x as nat) == p);
        assert((x as nat) / (p as nat) == q as nat);
        assert((x as nat) % (p as nat) == r as nat);
        assert(rounded == round_half_even(x as nat, p as nat));
        assert(rounded * p <= xw + p) by (nonlinear_arith)
            requires
                xw == p * q + r,
                rounded <= q + 1,
                p > 0,
        ;
    }
    rounded * p
}

fn push_tenths(s: &mut String, t: u64)
    ensures
        final(s)@ == old(s)@ + tenths_text(t as nat),
{
    push_decimal(s, t / 10);
    push_char(s, '.');
    push_char(s, crate::text::digit_of(t % 10));
    assert(s@ =~= old(s)@ + tenths_text(t as nat));
}

/// Human-readable file size, e.g. "512 B", "2.4 MB".
pub fn format_file_size(bytes: u64) -> (s: String)
    ensures
        s@ == file_size_text(bytes as nat),
{
    let mut s = String::new();
    if bytes >= GB {
        let f = nearest_f64_value(bytes);
        let t = divide_half_even(f * 10, GB as u128);
        push_tenths(&mut s, t as u64);
        push_char(&mut s, ' ');
        push_char(&mut s, 'G');
        push_char(&mut s, 'B');
    } else if bytes >= MB {
        let t = divide_half_even(bytes as u128 * 10, MB as u128);
        push_tenths(&mut s, t as u64);
        push_char(&mut s, ' ');
        push_char(&mut s, 'M');
        push_char(&mut s, 'B');
    } else if bytes >= KB {
        let t = divide_half_even(bytes as u128 * 10, KB as u128);
        push_tenths(&mut s, t as u64);
        push_char(&mut s, ' ');
        push_char(&mut s, 'K');
        push_char(&mut s, 'B');
    } else {
        push_decimal(&mut s, bytes);
        push_char(&mut s, ' ');
        push_char(&mut s, 'B');
    }
    assert(s@ =~= file_size_text(bytes as nat));
    s
}

/// Whether a path's extension is, ignoring case, one of `extensions`.
pub open spec fn convertible(path: Seq<char>, extensions: Seq<Seq<char>>) -> bool {
    match path_extension(path) {
        Some(ext) => exists|i: int|
            0 <= i < extensions.len() && #[trigger] lowercase(extensions[i]) == lowercase(ext),
        None => false,
    }
}

/// Check if a file's extension is in the list of convertible formats.
pub fn is_convertible(path: &str, extensions: &[String]) -> (ok: bool)
    ensures
        ok == convertible(path@, string_texts(extensions@)),
{
    match extension(path) {
        None => false,
        Some(ext) => {
            let lower = to_lowercase(ext.as_str());
            let n = extensions.len();
            for i in 0..n
                invariant
                    n == extensions@.len(),
                    lower@ == lowercase(ext@),
                    path_extension(path@) == Some(ext@),
                    forall|j: int| 0 <= j < i ==> #[trigger] lowercase(extensions@[j]@) != lower@,
            {
                let candidate = to_lowercase(extensions[i].as_str());
                if candidate == lower {
                    assert(lowercase(string_texts(extensions@)[i as int]) == lowercase(ext@));
                    return true;
                }
            }
            proof {
                assert forall|j: int| 0 <= j < string_texts(extensions@).len() implies
                    #[trigger] lowercase(string_texts(extensions@)[j]) != lowercase(ext@) by {
                    assert(string_texts(extensions@)[j] == extensions@[j]@);
                }
            }
            false
        },
    }
}

} // verus!
