//! Colors as style values write them: `#rrggbb`, `#rrggbbaa`, or the words
//! `transparent` and `alpha` (in any ASCII case).

use vstd::prelude::*;

use crate::codec::chars_of;
use crate::text::{lower, lowered, same_chars, trim, trimmed};

verus! {

/// A color with unmultiplied alpha.
#[derive(Clone, Copy, Debug, PartialEq, Eq, Structural)]
pub struct Rgba {
    pub r: u8,
    pub g: u8,
    pub b: u8,
    pub a: u8,
}

/// The value of a hexadecimal digit, or -1 for another character.
pub open spec fn hex_value(c: char) -> int {
    if '0' <= c && c <= '9' {
        c as int - 48
    } else if 'a' <= c && c <= 'f' {
        c as int - 87
    } else if 'A' <= c && c <= 'F' {
        c as int - 55
    } else {
        -1
    }
}

/// Every character is a hexadecimal digit.
pub open spec fn all_hex(s: Seq<char>) -> bool {
    forall|i: int| 0 <= i < s.len() ==> hex_value(#[trigger] s[i]) >= 0
}

/// The number the hexadecimal digits write.
pub open spec fn hex_number(s: Seq<char>) -> nat
    decreases s.len(),
{
    if s.len() == 0 {
        0
    } else {
        hex_number(s.drop_last()) * 16 + hex_value(s.last()) as nat
    }
}

/// `16` to the power `k`.
pub open spec fn pow16(k: nat) -> nat
    decreases k,
{
    if k == 0 {
        1
    } else {
        16 * pow16((k - 1) as nat)
    }
}

/// The color a style value names. After `#` come six or eight characters:
/// hexadecimal digits, the first of which may be replaced by `+` (as
/// `u32::from_str_radix` accepts); six give an opaque color, eight a color
/// with its alpha last.
pub open spec fn color_of(value: Seq<char>) -> Option<Rgba> {
    let v = trim(value);
    if lower(v) == "transparent"@ || lower(v) == "alpha"@ {
        Some(Rgba { r: 0, g: 0, b: 0, a: 0 })
    } else if v.len() > 0 && v[0] == '#' {
        let h = v.drop_first();
        let d = if h.len() > 0 && h[0] == '+' {
            h.drop_first()
        } else {
            h
        };
        let n = hex_number(d);
        if d.len() > 0 && all_hex(d) && h.len() == 6 {
            Some(Rgba { r: ((n / 65536) % 256) as u8, g: ((n / 256) % 256) as u8, b: (n % 256) as u8, a: 255 })
        } else if d.len() > 0 && all_hex(d) && h.len() == 8 {
            Some(
                Rgba {
                    r: ((n / 16777216) % 256) as u8,
                    g: ((n / 65536) % 256) as u8,
                    b: ((n / 256) % 256) as u8,
                    a: (n % 256) as u8,
                },
            )
        } else {
            None
        }
    } else {
        None
    }
}

fn digit_value(c: char) -> (r: Option<u64>)
    ensures
        match r {
            Some(v) => hex_value(c) >= 0 && v == hex_value(c),
            None => hex_value(c) < 0,
        },
{
    if '0' <= c && c <= '9' {
        Some(c as u64 - 48)
    } else if 'a' <= c && c <= 'f' {
        Some(c as u64 - 87)
    } else if 'A' <= c && c <= 'F' {
        Some(c as u64 - 55)
    } else {
        None
    }
}

proof fn lemma_pow16_bound(k: nat)
    requires
        k <= 8,
    ensures
        pow16(k) <= 4294967296,
{
    reveal_with_fuel(pow16, 9);
    if k == 0 {
    } else if k == 1 {
    } else if k == 2 {
    } else if k == 3 {
    } else if k == 4 {
    } else if k == 5 {
    } else if k == 6 {
    } else if k == 7 {
    } else {
    }
}

/// The number written by `d` when every character of it is a hexadecimal
/// digit.
fn hex_digits(d: &[char]) -> (r: Option<u64>)
    requires
        d@.len() <= 8,
    ensures
        match r {
            Some(n) => all_hex(d@) && n == hex_number(d@) && n < 4294967296,
            None => !all_hex(d@),
        },
{
    let mut acc: u64 = 0;
    let mut k: usize = 0;
    proof {
        lemma_pow16_bound(d@.len() as nat);
    }
    while k < d.len()
        invariant
            k <= d@.len() <= 8,
            pow16(d@.len() as nat) <= 4294967296,
            forall|i: int| 0 <= i < k ==> hex_value(#[trigger] d@[i]) >= 0,
            acc == hex_number(d@.subrange(0, k as int)),
            acc < pow16(k as nat),
        decreases d.len() - k,
    {
        match digit_value(d[k]) {
            Some(v) => {
                proof {
                    assert(d@.subrange(0, k + 1).drop_last() =~= d@.subrange(0, k as int));
                    lemma_pow16_mono(k as nat, d@.len() as nat);
                }
                acc = acc * 16 + v;
                k = k + 1;
            },
            None => {
                return None;
            },
        }
    }
    proof {
        assert(d@.subrange(0, d@.len() as int) =~= d@);
    }
    Some(acc)
}

proof fn lemma_pow16_mono(a: nat, b: nat)
    requires
        a < b,
    ensures
        pow16(a) * 16 <= pow16(b),
    decreases b,
{
    if a + 1 < b {
        lemma_pow16_mono(a, (b - 1) as nat);
        assert(pow16((b - 1) as nat) * 16 == pow16(b));
        assert(pow16((b - 1) as nat) >= 1) by {
            lemma_pow16_pos((b - 1) as nat);
        }
    }
}

proof fn lemma_pow16_pos(k: nat)
    ensures
        pow16(k) >= 1,
    decreases k,
{
    if k > 0 {
        lemma_pow16_pos((k - 1) as nat);
    }
}

fn is_word(v: &Vec<char>, w: &str) -> (r: bool)
    ensures
        r == (lower(v@) == w@),
{
    let l = lowered(v.as_slice());
    let wc = chars_of(w);
    same_chars(l.as_slice(), wc.as_slice())
}

/// The color a style value names (see [`color_of`]).
pub fn parse_color(value: &str) -> (r: Option<Rgba>)
    ensures
        r == color_of(value@),
{
    let c = chars_of(value);
    let v = trimmed(c.as_slice());
    if is_word(&v, "transparent") || is_word(&v, "alpha") {
        return Some(Rgba { r: 0, g: 0, b: 0, a: 0 });
    }
    if v.len() == 0 || v[0] != '#' {
        return None;
    }
    let h = crate::text::copy_range(v.as_slice(), 1, v.len());
    proof {
        assert(h@ =~= v@.drop_first());
    }
    if h.len() != 6 && h.len() != 8 {
        return None;
    }
    let d = if h[0] == '+' {
        crate::text::copy_range(h.as_slice(), 1, h.len())
    } else {
        crate::text::copy_range(h.as_slice(), 0, h.len())
    };
    proof {
        if h@[0] == '+' {
            assert(d@ =~= h@.drop_first());
        } else {
            assert(d@ =~= h@);
        }
    }
    if d.len() == 0 {
        return None;
    }
    let n = match hex_digits(d.as_slice()) {
        Some(n) => n,
        None => {
            return None;
        },
    };
    if h.len() == 6 {
        Some(Rgba { r: ((n / 65536) % 256) as u8, g: ((n / 256) % 256) as u8, b: (n % 256) as u8, a: 255 })
    } else {
        Some(
            Rgba {
                r: ((n / 16777216) % 256) as u8,
                g: ((n / 65536) % 256) as u8,
                b: ((n / 256) % 256) as u8,
                a: (n % 256) as u8,
            },
        )
    }
}

} // verus!
