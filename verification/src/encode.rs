//! The encoder: a byte sequence rendered as a hex dump, one line of sixteen
//! bytes at a time.
//!
//! Each line holds an eight-character hex address (the offset of its first
//! byte, wrapping at 32 bits), a colon and a space, eight groups of two bytes
//! (four hex characters and a trailing space each), one further space, a
//! sixteen-character sidebar (each byte itself when printable, `.` otherwise)
//! and a newline.  A final line of fewer than sixteen bytes keeps only its
//! complete two-byte groups in the sidebar, renders a trailing odd byte's hex
//! without a sidebar character, and pads with spaces so the sidebar starts at
//! the same column as on full lines.

use vstd::prelude::*;

use crate::hex::byte_hex;
use crate::hex::hex_to_ascii;
use crate::hex::is_printable;
use crate::hex::printable;
use crate::hex::u32_hex;
use crate::hex::u8_to_hex;

verus! {

/// The sidebar rendering of one byte under the classification `cls`.
pub open spec fn sidebar_char_of(cls: spec_fn(u8) -> bool, b: u8) -> u8 {
    if cls(b) {
        b
    } else {
        46
    }
}

/// The sidebar rendering of a run of bytes.
pub open spec fn sidebar_of(cls: spec_fn(u8) -> bool, t: Seq<u8>) -> Seq<u8> {
    Seq::new(t.len(), |i: int| sidebar_char_of(cls, t[i]))
}

/// `n` spaces.
pub open spec fn spaces(n: nat) -> Seq<u8> {
    Seq::new(n, |i: int| 32u8)
}

/// The hex body of a run of complete two-byte groups: four hex characters
/// and a trailing space for each pair of bytes.
pub open spec fn groups_hex(t: Seq<u8>) -> Seq<u8>
    decreases t.len(),
{
    if t.len() < 2 {
        Seq::empty()
    } else {
        byte_hex(t[0]) + byte_hex(t[1]) + seq![32u8] + groups_hex(t.skip(2))
    }
}

/// A full line: sixteen bytes `t` at address `addr`.
pub open spec fn line_full(cls: spec_fn(u8) -> bool, addr: u32, t: Seq<u8>) -> Seq<u8>
    recommends
        t.len() == 16,
{
    u32_hex(addr) + seq![58u8, 32u8] + groups_hex(t) + seq![32u8] + sidebar_of(cls, t) + seq![
        10u8,
    ]
}

/// The final, short line: fewer than sixteen bytes `t` at address `addr`.
/// An odd trailing byte is rendered in hex but gets no sidebar character;
/// the padding realigns the sidebar with that of full lines.
pub open spec fn line_short(cls: spec_fn(u8) -> bool, addr: u32, t: Seq<u8>) -> Seq<u8>
    recommends
        t.len() < 16,
{
    let whole = t.take((t.len() - t.len() % 2) as int);
    u32_hex(addr) + seq![58u8, 32u8] + groups_hex(whole) + (if t.len() % 2 == 1 {
        byte_hex(t[t.len() - 1])
    } else {
        Seq::<u8>::empty()
    }) + spaces((41 - (t.len() / 2) * 5) as nat) + sidebar_of(cls, whole) + seq![10u8]
}

/// The dump of `s` starting at address `addr`: full lines while sixteen
/// bytes remain, then one short line (possibly with no bytes at all).
/// Addresses wrap silently at 32 bits.
pub open spec fn dump_from(cls: spec_fn(u8) -> bool, s: Seq<u8>, addr: u32) -> Seq<u8>
    decreases s.len(),
{
    if s.len() >= 16 {
        line_full(cls, addr, s.take(16)) + dump_from(
            cls,
            s.skip(16),
            ((addr as int + 16) % 0x100000000) as u32,
        )
    } else {
        line_short(cls, addr, s)
    }
}

/// The printable-ASCII classification as a value, for the spec functions
/// that take the sidebar classification as a parameter.
pub open spec fn printable_cls() -> spec_fn(u8) -> bool {
    |b: u8| printable(b)
}

/// The dump of `s` under an arbitrary sidebar classification.
pub open spec fn dump_with(cls: spec_fn(u8) -> bool, s: Seq<u8>) -> Seq<u8> {
    dump_from(cls, s, 0)
}

/// The dump of `s`.
pub open spec fn dump_of(s: Seq<u8>) -> Seq<u8> {
    dump_with(printable_cls(), s)
}

/// Extending a run of complete groups by one more pair of bytes appends
/// that pair's four hex characters and a space.
pub proof fn lemma_groups_snoc(t: Seq<u8>, g: int)
    requires
        0 <= g,
        2 * g + 2 <= t.len(),
    ensures
        groups_hex(t.take(2 * g + 2)) == groups_hex(t.take(2 * g)) + byte_hex(t[2 * g]) + byte_hex(
            t[2 * g + 1],
        ) + seq![32u8],
    decreases g,
{
    if g == 0 {
        assert(t.take(2).skip(2) =~= Seq::<u8>::empty());
        assert(groups_hex(t.take(0)) =~= Seq::<u8>::empty());
        assert(t.take(2)[0] == t[0] && t.take(2)[1] == t[1]);
        assert(t.take(2).len() == 2);
        assert(groups_hex(t.take(2)) == byte_hex(t[0]) + byte_hex(t[1]) + seq![32u8] + groups_hex(
            t.take(2).skip(2),
        ));
        assert(groups_hex(t.take(2)) =~= groups_hex(t.take(0)) + byte_hex(t[0]) + byte_hex(t[1])
            + seq![32u8]);
    } else {
        lemma_groups_snoc(t.skip(2), g - 1);
        assert(t.take(2 * g + 2).skip(2) =~= t.skip(2).take(2 * g));
        assert(t.take(2 * g).skip(2) =~= t.skip(2).take(2 * g - 2));
        assert(t.take(2 * g + 2)[0] == t[0] && t.take(2 * g + 2)[1] == t[1]);
        assert(t.take(2 * g)[0] == t[0] && t.take(2 * g)[1] == t[1]);
        assert(t.skip(2)[2 * (g - 1)] == t[2 * g] && t.skip(2)[2 * (g - 1) + 1] == t[2 * g + 1]);
        assert(groups_hex(t.take(2 * g + 2)) == byte_hex(t[0]) + byte_hex(t[1]) + seq![32u8]
            + groups_hex(t.skip(2).take(2 * g)));
        assert(groups_hex(t.take(2 * g)) == byte_hex(t[0]) + byte_hex(t[1]) + seq![32u8]
            + groups_hex(t.skip(2).take(2 * g - 2)));
        assert(groups_hex(t.take(2 * g + 2)) =~= groups_hex(t.take(2 * g)) + byte_hex(t[2 * g])
            + byte_hex(t[2 * g + 1]) + seq![32u8]);
    }
}

/// Extending a rendered run by one more pair of bytes appends the pair's
/// two sidebar characters.
pub proof fn lemma_sidebar_snoc(cls: spec_fn(u8) -> bool, t: Seq<u8>, k: int)
    requires
        0 <= k,
        k + 2 <= t.len(),
    ensures
        sidebar_of(cls, t.take(k + 2)) == sidebar_of(cls, t.take(k)) + seq![
            sidebar_char_of(cls, t[k]),
            sidebar_char_of(cls, t[k + 1]),
        ],
{
    assert(sidebar_of(cls, t.take(k + 2)) =~= sidebar_of(cls, t.take(k)) + seq![
        sidebar_char_of(cls, t[k]),
        sidebar_char_of(cls, t[k + 1]),
    ]);
}

/// Append the two hex characters of `b` to `out`; the returned character is
/// the byte's sidebar rendering.
pub fn encode_byte(out: &mut Vec<u8>, b: u8) -> (c: u8)
    ensures
        final(out)@ == old(out)@ + byte_hex(b),
        c == sidebar_char_of(printable_cls(), b),
{
    let h = u8_to_hex(b);
    out.push(hex_to_ascii(h.0));
    out.push(hex_to_ascii(h.1));
    proof {
        assert(out@ =~= old(out)@ + byte_hex(b));
        assert(printable_cls()(b) == printable(b));
    }
    if is_printable(b) {
        b
    } else {
        46
    }
}

/// Append the eight-character hex address for `addr` to `out`.
fn push_addr(out: &mut Vec<u8>, addr: u32)
    ensures
        final(out)@ == old(out)@ + u32_hex(addr),
{
    out.push(hex_to_ascii((addr / 0x10000000 % 16) as u8));
    out.push(hex_to_ascii((addr / 0x1000000 % 16) as u8));
    out.push(hex_to_ascii((addr / 0x100000 % 16) as u8));
    out.push(hex_to_ascii((addr / 0x10000 % 16) as u8));
    out.push(hex_to_ascii((addr / 0x1000 % 16) as u8));
    out.push(hex_to_ascii((addr / 0x100 % 16) as u8));
    out.push(hex_to_ascii((addr / 0x10 % 16) as u8));
    out.push(hex_to_ascii((addr % 16) as u8));
    proof {
        assert(out@ =~= old(out)@ + u32_hex(addr));
    }
}

/// Render `input` as a hex dump.
#[verifier::rlimit(50)]
pub fn encode(input: &[u8]) -> (out: Vec<u8>)
    ensures
        out@ == dump_of(input@),
{
    let mut out: Vec<u8> = Vec::new();
    let mut i: usize = 0;
    let mut addr: u32 = 0;
    proof {
        assert(input@.skip(0) =~= input@);
        assert(out@ =~= Seq::<u8>::empty());
    }
    loop
        invariant
            i <= input.len(),
            dump_of(input@) == out@ + dump_from(printable_cls(), input@.skip(i as int), addr),
        decreases input.len() - i,
    {
        let ghost cls = printable_cls();
        let ghost sfx = input@.skip(i as int);
        let ghost base = out@;
        push_addr(&mut out, addr);
        out.push(58);
        out.push(32);
        proof {
            assert(out@ =~= base + u32_hex(addr) + seq![58u8, 32u8]);
        }
        let ghost head = out@;
        if input.len() - i >= 16 {
            let ghost chunk = sfx.take(16);
            let mut ascii: Vec<u8> = Vec::new();
            let mut g: usize = 0;
            proof {
                assert(out@ =~= head + groups_hex(chunk.take(0)));
                assert(ascii@ =~= sidebar_of(cls, chunk.take(0)));
            }
            while g < 8
                invariant
                    g <= 8,
                    cls == printable_cls(),
                    i + 16 <= input.len(),
                    chunk == input@.skip(i as int).take(16),
                    out@ == head + groups_hex(chunk.take(2 * g as int)),
                    ascii@ == sidebar_of(cls, chunk.take(2 * g as int)),
                decreases 8 - g,
            {
                let ghost out_g = out@;
                let ghost ascii_g = ascii@;
                let b1 = input[i + 2 * g];
                let c1 = encode_byte(&mut out, b1);
                let b2 = input[i + 2 * g + 1];
                let c2 = encode_byte(&mut out, b2);
                out.push(32);
                ascii.push(c1);
                ascii.push(c2);
                proof {
                    assert(chunk[2 * g as int] == b1 && chunk[2 * g as int + 1] == b2);
                    lemma_groups_snoc(chunk, g as int);
                    lemma_sidebar_snoc(cls, chunk, 2 * g as int);
                    assert(out@ =~= out_g + byte_hex(b1) + byte_hex(b2) + seq![32u8]);
                    assert(out@ =~= head + groups_hex(chunk.take(2 * (g + 1) as int)));
                    assert(ascii@ =~= ascii_g + seq![c1, c2]);
                    assert(ascii@ =~= sidebar_of(cls, chunk.take(2 * (g + 1) as int)));
                }
                g += 1;
            }
            out.push(32);
            let ghost pre_sb = out@;
            let mut j: usize = 0;
            while j < ascii.len()
                invariant
                    j <= ascii.len(),
                    out@ == pre_sb + ascii@.take(j as int),
                decreases ascii.len() - j,
            {
                let ghost out_j = out@;
                let a = ascii[j];
                out.push(a);
                proof {
                    assert(out@ =~= pre_sb + ascii@.take(j as int + 1));
                }
                j += 1;
            }
            out.push(10);
            proof {
                assert(chunk.take(16) =~= chunk);
                assert(ascii@.take(ascii@.len() as int) =~= ascii@);
                assert(out@ =~= base + line_full(cls, addr, chunk));
                assert(sfx.skip(16) =~= input@.skip(i as int + 16));
                assert(dump_from(cls, sfx, addr) == line_full(cls, addr, chunk) + dump_from(
                    cls,
                    input@.skip(i as int + 16),
                    ((addr as int + 16) % 0x100000000) as u32,
                ));
                assert(dump_of(input@) =~= out@ + dump_from(
                    cls,
                    input@.skip(i as int + 16),
                    ((addr as int + 16) % 0x100000000) as u32,
                ));
            }
            i += 16;
            let a64: u64 = addr as u64 + 16;
            addr = (a64 % 0x100000000) as u32;
        } else {
            let n = input.len() - i;
            let rem = n / 2;
            let ghost whole = sfx.take((sfx.len() - sfx.len() % 2) as int);
            let mut ascii: Vec<u8> = Vec::new();
            let mut g: usize = 0;
            proof {
                assert(whole =~= sfx.take(2 * (rem as int)));
                assert(out@ =~= head + groups_hex(whole.take(0)));
                assert(ascii@ =~= sidebar_of(cls, whole.take(0)));
            }
            while g < rem
                invariant
                    g <= rem,
                    cls == printable_cls(),
                    rem == (input.len() - i) / 2,
                    i <= input.len(),
                    i + 2 * rem <= input.len(),
                    sfx == input@.skip(i as int),
                    whole == sfx.take(2 * (rem as int)),
                    out@ == head + groups_hex(whole.take(2 * g as int)),
                    ascii@ == sidebar_of(cls, whole.take(2 * g as int)),
                decreases rem - g,
            {
                let ghost out_g = out@;
                let ghost ascii_g = ascii@;
                let b1 = input[i + 2 * g];
                let c1 = encode_byte(&mut out, b1);
                let b2 = input[i + 2 * g + 1];
                let c2 = encode_byte(&mut out, b2);
                out.push(32);
                ascii.push(c1);
                ascii.push(c2);
                proof {
                    assert(whole[2 * g as int] == b1 && whole[2 * g as int + 1] == b2);
                    lemma_groups_snoc(whole, g as int);
                    lemma_sidebar_snoc(cls, whole, 2 * g as int);
                    assert(out@ =~= out_g + byte_hex(b1) + byte_hex(b2) + seq![32u8]);
                    assert(out@ =~= head + groups_hex(whole.take(2 * (g + 1) as int)));
                    assert(ascii@ =~= ascii_g + seq![c1, c2]);
                    assert(ascii@ =~= sidebar_of(cls, whole.take(2 * (g + 1) as int)));
                }
                g += 1;
            }
            proof {
                assert(whole.take(2 * (rem as int)) =~= whole);
            }
            if n % 2 == 1 {
                let b = input[i + 2 * rem];
                let ghost out_g = out@;
                let _ = encode_byte(&mut out, b);
                proof {
                    assert(sfx[sfx.len() - 1] == b);
                }
            }
            let ghost pre_pad = out@;
            let pad = 41 - rem * 5;
            let mut p: usize = 0;
            while p < pad
                invariant
                    p <= pad,
                    out@ == pre_pad + spaces(p as nat),
                decreases pad - p,
            {
                out.push(32);
                proof {
                    assert(out@ =~= pre_pad + spaces((p + 1) as nat));
                }
                p += 1;
            }
            let ghost pre_sb = out@;
            let mut j: usize = 0;
            while j < ascii.len()
                invariant
                    j <= ascii.len(),
                    out@ == pre_sb + ascii@.take(j as int),
                decreases ascii.len() - j,
            {
                let a = ascii[j];
                out.push(a);
                proof {
                    assert(out@ =~= pre_sb + ascii@.take(j as int + 1));
                }
                j += 1;
            }
            out.push(10);
            proof {
                assert(ascii@.take(ascii@.len() as int) =~= ascii@);
                assert(out@ =~= base + line_short(cls, addr, sfx));
                assert(dump_of(input@) =~= out@);
            }
            return out;
        }
    }
}

} // verus!
