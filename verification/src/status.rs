use vstd::prelude::*;

use crate::config::MIB;
use crate::text::{chars_of, decimal, decimal_chars, digit_char, push_all, string_of};

verus! {

// ---------------------------------------------------------------------------
// What the status tool prints.
// ---------------------------------------------------------------------------

/// `char::is_control`: the characters of the Unicode category Cc.
pub open spec fn is_control(c: char) -> bool {
    c <= '\u{1f}' || ('\u{7f}' <= c <= '\u{9f}')
}

/// `s` with its control characters left out.
pub open spec fn without_controls(s: Seq<char>) -> Seq<char>
    decreases s.len(),
{
    if s.len() == 0 {
        s
    } else if is_control(s.last()) {
        without_controls(s.drop_last())
    } else {
        without_controls(s.drop_last()).push(s.last())
    }
}

/// Unit names and cgroup paths come from other processes, any user's, so
/// they can carry control characters that would rewrite the terminal: this
/// is `raw` with every control character left out.
pub fn printable(raw: &str) -> (r: String)
    ensures
        r@ == without_controls(raw@),
{
    let cs = chars_of(raw);
    let mut out: Vec<char> = Vec::new();
    let mut i: usize = 0;
    while i < cs.len()
        invariant
            cs@ == raw@,
            i <= cs.len(),
            out@ == without_controls(cs@.take(i as int)),
        decreases cs.len() - i,
    {
        let c = cs[i];
        proof {
            assert(cs@.take(i + 1).drop_last() =~= cs@.take(i as int));
        }
        if !(c <= '\u{1f}' || ('\u{7f}' <= c && c <= '\u{9f}')) {
            out.push(c);
        }
        i = i + 1;
    }
    proof {
        assert(cs@.take(cs@.len() as int) =~= cs@);
    }
    string_of(out.as_slice())
}

/// How a text property is shown: `(none)` when empty, else its printable part.
pub fn format_text(s: &str) -> (r: String)
    ensures
        r@ == if s@.len() == 0 {
            "(none)"@
        } else {
            without_controls(s@)
        },
{
    let cs = chars_of(s);
    if cs.len() == 0 {
        string_of(chars_of("(none)").as_slice())
    } else {
        printable(s)
    }
}

/// Hundredths of a GiB in `mib` MiB, rounded to the nearest, ties to even
/// (as `{:.2}` formats the exact value `mib / 1024`).
pub open spec fn gib_hundredths(mib: nat) -> nat {
    let q = mib * 25 / 256;
    let r = mib * 25 % 256;
    if r > 128 || (r == 128 && q % 2 == 1) {
        q + 1
    } else {
        q
    }
}

/// `mib` MiB in GiB with two decimals.
pub open spec fn gib_text(mib: nat) -> Seq<char> {
    let h = gib_hundredths(mib);
    decimal(h / 100) + seq!['.', digit_char((h % 100) / 10), digit_char(h % 10)]
}

/// A number of bytes as the status tool shows it: the bytes, the whole MiB,
/// and from 1 GiB on the GiB with two decimals.
pub open spec fn human_bytes_spec(b: u64) -> Seq<char> {
    let mib = (b / MIB) as nat;
    if mib >= 1024 {
        decimal(b as nat) + " ("@ + decimal(mib) + " MiB, "@ + gib_text(mib) + " GiB)"@
    } else {
        decimal(b as nat) + " ("@ + decimal(mib) + " MiB)"@
    }
}

/// `b` bytes as `<b> (<MiB> MiB, <GiB> GiB)`, the GiB part only from 1 GiB on.
pub fn human_bytes(b: u64) -> (r: String)
    ensures
        r@ == human_bytes_spec(b),
{
    let mib = b / MIB;
    let mut out = decimal_chars(b);
    push_all(&mut out, chars_of(" (").as_slice());
    push_all(&mut out, decimal_chars(mib).as_slice());
    if mib >= 1024 {
        push_all(&mut out, chars_of(" MiB, ").as_slice());
        let x = mib * 25;
        let q = x / 256;
        let rem = x % 256;
        let h = if rem > 128 || (rem == 128 && q % 2 == 1) {
            q + 1
        } else {
            q
        };
        push_all(&mut out, decimal_chars(h / 100).as_slice());
        let tens = ((h % 100) / 10) as u8;
        let ones = (h % 10) as u8;
        out.push('.');
        out.push((tens + 48u8) as char);
        out.push((ones + 48u8) as char);
        push_all(&mut out, chars_of(" GiB)").as_slice());
        proof {
            assert(h == gib_hundredths(mib as nat));
            assert(out@ =~= human_bytes_spec(b));
        }
    } else {
        push_all(&mut out, chars_of(" MiB)").as_slice());
        proof {
            assert(out@ =~= human_bytes_spec(b));
        }
    }
    string_of(out.as_slice())
}

/// The MiB kept out of app.slice, as the status tool shows it beside the
/// ceiling: the VRAM less the ceiling (0 if the ceiling is larger), in whole MiB.
pub fn ceiling_reserve_mib(vram_total: u64, ceiling: u64) -> (r: u64)
    ensures
        r == (if ceiling <= vram_total { (vram_total - ceiling) / MIB as int } else { 0 }),
{
    vram_total.saturating_sub(ceiling) / MIB
}

}
