//! The progress line the command line draws while it builds or extracts an
//! archive.

use crate::text::{decimal, push_bytes, push_decimal};
use vstd::prelude::*;
use vstd::utf8::encode_utf8;

verus! {

/// The width of the bar, in characters.
pub const BAR_WIDTH: usize = 20;

/// How many cells of the bar are full after `n` of `total` items: none where
/// `total` is 0.
pub open spec fn filled_cells(n: nat, total: nat) -> nat {
    if total == 0 {
        0
    } else {
        (n * BAR_WIDTH as nat) / total
    }
}

/// The bar: `=` for each full cell, `>` after them, spaces for the rest.
pub open spec fn bar(filled: nat) -> Seq<u8> {
    Seq::new(
        BAR_WIDTH as nat,
        |i: int|
            if i < filled {
                61u8
            } else if i == filled {
                62u8
            } else {
                32u8
            },
    )
}

/// The sixteen spaces that clear what is left of a longer earlier line.
pub open spec fn clearing() -> Seq<u8> {
    Seq::new(16, |i: int| 32u8)
}

/// The progress line after `n` of `total` items, the last one `label`: a
/// carriage return, two spaces, the bar in brackets, `n/total`, the label
/// and spaces, and a carriage return.
pub open spec fn progress_bytes(n: nat, total: nat, label: Seq<u8>) -> Seq<u8> {
    seq![13u8, 32, 32, 91] + bar(filled_cells(n, total)) + seq![93u8, 32] + decimal(n) + seq![47u8] + decimal(
        total,
    ) + seq![32u8] + label + clearing() + seq![13u8]
}

/// The progress line after `n` of `total` items, the last one `label`.
pub fn progress_line(n: usize, total: usize, label: &str) -> (r: Vec<u8>)
    requires
        n * BAR_WIDTH <= usize::MAX,
    ensures
        r@ == progress_bytes(n as nat, total as nat, encode_utf8(label@)),
{
    let filled: usize = if total == 0 {
        0
    } else {
        (n * BAR_WIDTH) / total
    };
    let mut out: Vec<u8> = Vec::new();
    out.push(13);
    out.push(32);
    out.push(32);
    out.push(91);
    let ghost head = out@;
    let mut i: usize = 0;
    while i < BAR_WIDTH
        invariant
            0 <= i <= BAR_WIDTH,
            filled == filled_cells(n as nat, total as nat),
            out@ == head + bar(filled as nat).take(i as int),
        decreases BAR_WIDTH - i,
    {
        let c: u8 = if i < filled {
            61
        } else if i == filled {
            62
        } else {
            32
        };
        out.push(c);
        assert(bar(filled as nat).take(i + 1) =~= bar(filled as nat).take(i as int).push(c));
        i = i + 1;
    }
    assert(bar(filled as nat).take(BAR_WIDTH as int) =~= bar(filled as nat));
    out.push(93);
    out.push(32);
    push_decimal(&mut out, n as u64);
    out.push(47);
    push_decimal(&mut out, total as u64);
    out.push(32);
    push_bytes(&mut out, label.as_bytes());
    let ghost before = out@;
    let mut k: usize = 0;
    while k < 16
        invariant
            0 <= k <= 16,
            out@ == before + clearing().take(k as int),
        decreases 16 - k,
    {
        out.push(32);
        assert(clearing().take(k + 1) =~= clearing().take(k as int).push(32u8));
        k = k + 1;
    }
    assert(clearing().take(16) =~= clearing());
    out.push(13);
    assert(out@ =~= progress_bytes(n as nat, total as nat, encode_utf8(label@)));
    out
}

} // verus!
