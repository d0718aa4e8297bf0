//! Numbers as text, and text without the white space around it.

use vstd::prelude::*;
use vstd::string::StringExecFns;

verus! {

/// The digit with the value `d`, in lower case.
pub open spec fn digit(d: nat) -> char {
    if d < 10 {
        ('0' as u32 + d) as char
    } else {
        ('a' as u32 + (d - 10)) as char
    }
}

/// `n` in decimal.
pub open spec fn decimal(n: nat) -> Seq<char>
    decreases n,
{
    if n < 10 {
        seq![digit(n)]
    } else {
        decimal(n / 10).push(digit(n % 10))
    }
}

/// The last `width` hexadecimal digits of `n`, with leading zeros.
pub open spec fn hex(n: nat, width: nat) -> Seq<char>
    decreases width,
{
    if width == 0 {
        seq![]
    } else {
        hex(n / 16, (width - 1) as nat).push(digit(n % 16))
    }
}

fn digit_text(d: u8) -> (r: &'static str)
    requires
        d < 16,
    ensures
        r@ == seq![digit(d as nat)],
{
    proof {
        reveal_strlit("0");
        reveal_strlit("1");
        reveal_strlit("2");
        reveal_strlit("3");
        reveal_strlit("4");
        reveal_strlit("5");
        reveal_strlit("6");
        reveal_strlit("7");
        reveal_strlit("8");
        reveal_strlit("9");
        reveal_strlit("a");
        reveal_strlit("b");
        reveal_strlit("c");
        reveal_strlit("d");
        reveal_strlit("e");
        reveal_strlit("f");
    }
    let r: &'static str = match d {
        0 => "0",
        1 => "1",
        2 => "2",
        3 => "3",
        4 => "4",
        5 => "5",
        6 => "6",
        7 => "7",
        8 => "8",
        9 => "9",
        10 => "a",
        11 => "b",
        12 => "c",
        13 => "d",
        14 => "e",
        _ => "f",
    };
    assert(r@ =~= seq![digit(d as nat)]);
    r
}

/// Appends `n` in decimal.
pub fn push_decimal(out: &mut String, n: u128)
    ensures
        final(out)@ == old(out)@ + decimal(n as nat),
    decreases n,
{
    if n >= 10 {
        push_decimal(out, n / 10);
    }
    out.append(digit_text((n % 10) as u8));
    assert(out@ =~= old(out)@ + decimal(n as nat));
}

/// Appends the last `width` hexadecimal digits of `n`.
pub fn push_hex(out: &mut String, n: u32, width: u32)
    ensures
        final(out)@ == old(out)@ + hex(n as nat, width as nat),
    decreases width,
{
    if width > 0 {
        push_hex(out, n / 16, width - 1);
        out.append(digit_text((n % 16) as u8));
    }
    assert(out@ =~= old(out)@ + hex(n as nat, width as nat));
}

// ── White space ──────────────────────────────────────────────────────────────

/// The bytes are one white-space character in UTF-8.
pub open spec fn is_blank_char(b: Seq<u8>) -> bool {
    ||| b.len() == 1 && (0x09 <= b[0] <= 0x0D || b[0] == 0x20)
    ||| b.len() == 2 && b[0] == 0xC2 && (b[1] == 0x85 || b[1] == 0xA0)
    ||| b.len() == 3 && b[0] == 0xE1 && b[1] == 0x9A && b[2] == 0x80
    ||| b.len() == 3 && b[0] == 0xE2 && b[1] == 0x80 && (0x80 <= b[2] <= 0x8A || b[2] == 0xA8
        || b[2] == 0xA9 || b[2] == 0xAF)
    ||| b.len() == 3 && b[0] == 0xE2 && b[1] == 0x81 && b[2] == 0x9F
    ||| b.len() == 3 && b[0] == 0xE3 && b[1] == 0x80 && b[2] == 0x80
}

/// The length of the white-space character at the start; zero where there is none.
pub open spec fn blank_at_start(b: Seq<u8>) -> int {
    if b.len() >= 1 && is_blank_char(b.take(1)) {
        1
    } else if b.len() >= 2 && is_blank_char(b.take(2)) {
        2
    } else if b.len() >= 3 && is_blank_char(b.take(3)) {
        3
    } else {
        0
    }
}

/// The length of the white-space character at the end; zero where there is none.
pub open spec fn blank_at_end(b: Seq<u8>) -> int {
    if b.len() >= 1 && is_blank_char(b.skip(b.len() - 1)) {
        1
    } else if b.len() >= 2 && is_blank_char(b.skip(b.len() - 2)) {
        2
    } else if b.len() >= 3 && is_blank_char(b.skip(b.len() - 3)) {
        3
    } else {
        0
    }
}

pub open spec fn trimmed_start(b: Seq<u8>) -> Seq<u8>
    decreases b.len(),
{
    if blank_at_start(b) == 0 {
        b
    } else {
        trimmed_start(b.skip(blank_at_start(b)))
    }
}

pub open spec fn trimmed_end(b: Seq<u8>) -> Seq<u8>
    decreases b.len(),
{
    if blank_at_end(b) == 0 {
        b
    } else {
        trimmed_end(b.take(b.len() - blank_at_end(b)))
    }
}

/// The bytes without white space at either end.
pub open spec fn trimmed(b: Seq<u8>) -> Seq<u8> {
    trimmed_end(trimmed_start(b))
}

fn blank_char_len(b: &[u8], at: usize) -> (r: usize)
    requires
        at <= b.len(),
    ensures
        r == blank_at_start(b@.skip(at as int)),
        r <= 3,
        at + r <= b.len(),
{
    let ghost s = b@.skip(at as int);
    let left: usize = b.len() - at;
    if left >= 1 {
        let x = b[at];
        assert(s.take(1)[0] == x);
        if (0x09 <= x && x <= 0x0D) || x == 0x20 {
            return 1;
        }
    }
    if left >= 2 {
        let (x, y) = (b[at], b[at + 1]);
        assert(s.take(2)[0] == x && s.take(2)[1] == y);
        if x == 0xC2 && (y == 0x85 || y == 0xA0) {
            return 2;
        }
    }
    if left >= 3 {
        let (x, y, z) = (b[at], b[at + 1], b[at + 2]);
        assert(s.take(3)[0] == x && s.take(3)[1] == y && s.take(3)[2] == z);
        if is_wide_blank(x, y, z) {
            return 3;
        }
    }
    0
}

fn is_wide_blank(x: u8, y: u8, z: u8) -> (r: bool)
    ensures
        r == is_blank_char(seq![x, y, z]),
{
    (x == 0xE1 && y == 0x9A && z == 0x80) || (x == 0xE2 && y == 0x80 && ((0x80 <= z && z <= 0x8A)
        || z == 0xA8 || z == 0xA9 || z == 0xAF)) || (x == 0xE2 && y == 0x81 && z == 0x9F) || (x
        == 0xE3 && y == 0x80 && z == 0x80)
}

fn last_blank_len(b: &[u8], start: usize, end: usize) -> (r: usize)
    requires
        start <= end <= b.len(),
    ensures
        r == blank_at_end(b@.subrange(start as int, end as int)),
        start + r <= end,
{
    let ghost s = b@.subrange(start as int, end as int);
    let len: usize = end - start;
    if len >= 1 {
        let x = b[end - 1];
        assert(s.skip(s.len() - 1)[0] == x);
        if (0x09 <= x && x <= 0x0D) || x == 0x20 {
            return 1;
        }
    }
    if len >= 2 {
        let (x, y) = (b[end - 2], b[end - 1]);
        assert(s.skip(s.len() - 2)[0] == x && s.skip(s.len() - 2)[1] == y);
        if x == 0xC2 && (y == 0x85 || y == 0xA0) {
            return 2;
        }
    }
    if len >= 3 {
        let (x, y, z) = (b[end - 3], b[end - 2], b[end - 1]);
        assert(s.skip(s.len() - 3)[0] == x && s.skip(s.len() - 3)[1] == y && s.skip(s.len() - 3)[2]
            == z);
        if is_wide_blank(x, y, z) {
            return 3;
        }
    }
    0
}

/// Finds what is left without the white space at either end: where it starts and ends.
pub fn trim(value: &[u8]) -> (r: (usize, usize))
    ensures
        r.0 <= r.1 <= value@.len(),
        value@.subrange(r.0 as int, r.1 as int) == trimmed(value@),
{
    let mut start: usize = 0;
    let mut k = blank_char_len(value, 0);
    assert(value@.skip(0) =~= value@);
    while k > 0
        invariant
            start + k <= value.len(),
            k == blank_at_start(value@.skip(start as int)),
            trimmed_start(value@) == trimmed_start(value@.skip(start as int)),
        decreases value.len() - start,
    {
        assert(value@.skip(start as int).skip(k as int) =~= value@.skip(start + k));
        start = start + k;
        k = blank_char_len(value, start);
    }
    let mut end: usize = value.len();
    let ghost from_start = value@.skip(start as int);
    assert(value@.subrange(start as int, end as int) =~= from_start);
    let mut k = last_blank_len(value, start, end);
    while k > 0
        invariant
            start + k <= end <= value.len(),
            from_start == value@.skip(start as int),
            k == blank_at_end(value@.subrange(start as int, end as int)),
            trimmed_end(from_start) == trimmed_end(value@.subrange(start as int, end as int)),
        decreases end - start,
    {
        assert(value@.subrange(start as int, end as int).take(end - start - k) =~= value@.subrange(
            start as int,
            end - k,
        ));
        end = end - k;
        k = last_blank_len(value, start, end);
    }
    (start, end)
}

} // verus!
