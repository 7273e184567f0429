//! The laws of the codec: decoding inverts encoding for every byte
//! sequence, each line's address field spells the line's offset, encoding
//! is a function of its input alone, and the sidebar classification never
//! reaches the decoded bytes.

use vstd::prelude::*;

use crate::decode::after_tokens;
use crate::decode::bytes_from;
use crate::decode::drop_spaces;
use crate::decode::opt_prepend;
use crate::decode::lemma_opt_prepend_assoc;
use crate::decode::parse_dump;
use crate::encode::dump_from;
use crate::encode::dump_of;
use crate::encode::dump_with;
use crate::encode::groups_hex;
use crate::encode::line_full;
use crate::encode::line_short;
use crate::encode::printable_cls;
use crate::encode::sidebar_char_of;
use crate::encode::sidebar_of;
use crate::encode::spaces;
use crate::hex::byte_hex;
use crate::hex::hex_val_of;
use crate::hex::lemma_byte_hex_chars;
use crate::hex::lemma_hex_digit_chars;
use crate::hex::lemma_u32_hex_chars;
use crate::hex::printable;
use crate::hex::u32_hex;

verus! {

/// Skipping as many characters as a space-free prefix holds consumes
/// exactly that prefix.
proof fn lemma_after_tokens_prefix(p: Seq<u8>, x: Seq<u8>)
    requires
        forall|j: int| 0 <= j < p.len() ==> p[j] != 32,
    ensures
        after_tokens(p + x, p.len()) == x,
    decreases p.len(),
{
    if p.len() == 0 {
        assert(p + x =~= x);
    } else {
        let t = p + x;
        assert(t[0] == p[0]);
        assert(t.len() > 0 && t[0] != 32);
        assert(drop_spaces(t) == t);
        assert(t.skip(1) =~= p.skip(1) + x);
        lemma_after_tokens_prefix(p.skip(1), x);
    }
}

/// A single space before a byte slot falls away.
proof fn lemma_one_space(x: Seq<u8>, k: nat)
    requires
        k >= 1,
        x.len() > 0 ==> x[0] != 32,
    ensures
        bytes_from(seq![32u8] + x, k) == bytes_from(x, k),
{
    let t = seq![32u8] + x;
    assert(t[0] == 32);
    assert(t.skip(1) =~= x);
    if x.len() > 0 {
        assert(t[1] == x[0]);
    }
}

/// Characters other than a newline are passed over while the scan for the
/// end of a line runs.
proof fn lemma_scan_no_newline(w: Seq<u8>, rest: Seq<u8>)
    requires
        forall|j: int| 0 <= j < w.len() ==> w[j] != 10,
    ensures
        bytes_from(w + rest, 0) == bytes_from(rest, 0),
    decreases w.len(),
{
    if w.len() == 0 {
        assert(w + rest =~= rest);
    } else {
        let t = w + rest;
        assert(t[0] == w[0]);
        assert(t.skip(1) =~= w.skip(1) + rest);
        lemma_scan_no_newline(w.skip(1), rest);
    }
}

/// A newline ends the line: what follows is decoded as from the top.
proof fn lemma_newline_then(rest: Seq<u8>)
    ensures
        bytes_from(seq![10u8] + rest, 0) == parse_dump(rest),
{
    let t = seq![10u8] + rest;
    assert(t[0] == 10);
    assert(t.skip(1) =~= rest);
}

/// An exhausted input decodes to no bytes.
proof fn lemma_parse_empty()
    ensures
        parse_dump(Seq::<u8>::empty()) == Some(Seq::<u8>::empty()),
{
    assert(drop_spaces(Seq::<u8>::empty()) == Seq::<u8>::empty());
    assert(after_tokens(Seq::<u8>::empty(), 9) == Seq::<u8>::empty());
}

/// Under a classification that keeps the newline byte out of the sidebar,
/// no sidebar character is a newline.
proof fn lemma_sidebar_no_newline(cls: spec_fn(u8) -> bool, t: Seq<u8>)
    requires
        cls(10) == false,
    ensures
        forall|j: int| 0 <= j < t.len() ==> (#[trigger] sidebar_of(cls, t)[j]) != 10,
{
    assert forall|j: int| 0 <= j < t.len() implies (#[trigger] sidebar_of(cls, t)[j]) != 10 by {
        assert(sidebar_of(cls, t)[j] == sidebar_char_of(cls, t[j]));
    }
}

/// A run of complete groups decodes to exactly the bytes it renders, and
/// hands the scan on at the following byte boundary.
proof fn lemma_decode_groups(u: Seq<u8>, rest: Seq<u8>, k: nat)
    requires
        u.len() % 2 == 0,
        2 <= u.len() <= k,
    ensures
        bytes_from(groups_hex(u) + rest, k) == opt_prepend(
            u,
            bytes_from(seq![32u8] + rest, (k - u.len()) as nat),
        ),
    decreases u.len(),
{
    lemma_hex_digit_chars();
    let b0 = u[0];
    let b1 = u[1];
    lemma_byte_hex_chars(b0);
    lemma_byte_hex_chars(b1);
    let up = u.skip(2);
    let t = groups_hex(u) + rest;
    assert(groups_hex(u) == byte_hex(b0) + byte_hex(b1) + seq![32u8] + groups_hex(up));
    assert(t[0] == byte_hex(b0)[0] && t[1] == byte_hex(b0)[1]);
    assert(t.skip(1) =~= seq![byte_hex(b0)[1]] + (byte_hex(b1) + seq![32u8] + groups_hex(up)
        + rest));
    assert(drop_spaces(t.skip(1)) == t.skip(1));
    assert(t.skip(1)[0] == t[1]);
    assert(hex_val_of(t[0]) * 16 + hex_val_of(t[1]) == b0);
    assert(t.skip(1).skip(1) =~= t.skip(2));
    assert(bytes_from(t, k) == opt_prepend(seq![b0], bytes_from(t.skip(2), (k - 1) as nat)));
    let t2 = t.skip(2);
    assert(t2 =~= byte_hex(b1) + seq![32u8] + groups_hex(up) + rest);
    assert(t2[0] == byte_hex(b1)[0] && t2[1] == byte_hex(b1)[1]);
    assert(t2.skip(1) =~= seq![byte_hex(b1)[1]] + (seq![32u8] + groups_hex(up) + rest));
    assert(drop_spaces(t2.skip(1)) == t2.skip(1));
    assert(t2.skip(1)[0] == t2[1]);
    assert(hex_val_of(t2[0]) * 16 + hex_val_of(t2[1]) == b1);
    assert(t2.skip(1).skip(1) =~= t2.skip(2));
    assert(bytes_from(t2, (k - 1) as nat) == opt_prepend(
        seq![b1],
        bytes_from(t2.skip(2), (k - 2) as nat),
    ));
    let t4 = t2.skip(2);
    if up.len() == 0 {
        assert(groups_hex(up) == Seq::<u8>::empty());
        assert(t4 =~= seq![32u8] + rest);
        assert(u =~= seq![b0] + seq![b1]);
        lemma_opt_prepend_assoc(seq![b0], seq![b1], bytes_from(seq![32u8] + rest, (k - 2) as nat));
    } else {
        let x = groups_hex(up) + rest;
        assert(t4 =~= seq![32u8] + x);
        lemma_byte_hex_chars(up[0]);
        assert(groups_hex(up) == byte_hex(up[0]) + byte_hex(up[1]) + seq![32u8] + groups_hex(
            up.skip(2),
        ));
        assert(x[0] == byte_hex(up[0])[0]);
        assert(x[0] != 32);
        lemma_one_space(x, (k - 2) as nat);
        lemma_decode_groups(up, rest, (k - 2) as nat);
        lemma_opt_prepend_assoc(
            seq![b1],
            up,
            bytes_from(seq![32u8] + rest, (k - u.len()) as nat),
        );
        lemma_opt_prepend_assoc(
            seq![b0],
            seq![b1] + up,
            bytes_from(seq![32u8] + rest, (k - u.len()) as nat),
        );
        assert(u =~= seq![b0] + (seq![b1] + up));
    }
}

/// Decoding the padding gap, the sidebar and the newline of a final line,
/// with whatever `rest` follows the dump, reaches `rest` untouched.
proof fn lemma_padding_tail(cls: spec_fn(u8) -> bool, pad: nat, sb: Seq<u8>, k: nat)
    requires
        cls(10) == false,
        pad >= 2,
        k >= 1,
        forall|j: int| 0 <= j < sb.len() ==> (#[trigger] sb[j]) != 10,
    ensures
        bytes_from(spaces(pad) + (sb + seq![10u8]), k) == Some(Seq::<u8>::empty()),
{
    let t = spaces(pad) + (sb + seq![10u8]);
    assert(t[0] == 32 && t[1] == 32);
    let w = spaces((pad - 2) as nat) + sb;
    assert(t.skip(2) =~= w + seq![10u8]);
    assert(forall|j: int| 0 <= j < w.len() ==> (#[trigger] w[j]) != 10) by {
        assert forall|j: int| 0 <= j < w.len() implies (#[trigger] w[j]) != 10 by {
            if j < pad - 2 {
                assert(w[j] == 32);
            } else {
                assert(w[j] == sb[j - (pad - 2)]);
            }
        }
    }
    lemma_scan_no_newline(w, seq![10u8]);
    assert(seq![10u8] + Seq::<u8>::empty() =~= seq![10u8]);
    lemma_newline_then(Seq::<u8>::empty());
    lemma_parse_empty();
}

/// The address field and its colon are nine space-free characters.
proof fn lemma_addrcolon_nonspace(addr: u32)
    ensures
        (u32_hex(addr) + seq![58u8]).len() == 9,
        forall|j: int| 0 <= j < 9 ==> (#[trigger] (u32_hex(addr) + seq![58u8])[j]) != 32,
{
    lemma_u32_hex_chars(addr);
    let addrcolon = u32_hex(addr) + seq![58u8];
    assert forall|j: int| 0 <= j < 9 implies (#[trigger] addrcolon[j]) != 32 by {
        if j < 8 {
            assert(addrcolon[j] == u32_hex(addr)[j]);
        } else {
            assert(addrcolon[j] == 58);
        }
    }
}

/// Round trip for the final, short line: its dump alone decodes to
/// exactly its bytes.
#[verifier::rlimit(100)]
proof fn lemma_round_trip_short(cls: spec_fn(u8) -> bool, s: Seq<u8>, addr: u32)
    requires
        cls(10) == false,
        s.len() < 16,
    ensures
        parse_dump(line_short(cls, addr, s)) == Some(s),
{
    lemma_hex_digit_chars();
    lemma_addrcolon_nonspace(addr);
    let d = line_short(cls, addr, s);
    let addrcolon = u32_hex(addr) + seq![58u8];
    let whole = s.take((s.len() - s.len() % 2) as int);
    let rem = s.len() as int / 2;
    let gg = groups_hex(whole);
    let sb = sidebar_of(cls, whole);
    let oddp = if s.len() % 2 == 1 {
        byte_hex(s[s.len() - 1])
    } else {
        Seq::<u8>::empty()
    };
    let padlen = (41 - rem * 5) as nat;
    assert(d == line_short(cls, addr, s));
    lemma_sidebar_no_newline(cls, whole);
    assert(whole.len() == 2 * rem);
    if rem >= 1 {
        let rest1 = oddp + (spaces(padlen) + (sb + seq![10u8]));
        let body = seq![32u8] + (gg + rest1);
        assert(d =~= addrcolon + body);
        lemma_after_tokens_prefix(addrcolon, body);
        lemma_byte_hex_chars(whole[0]);
        assert(gg == byte_hex(whole[0]) + byte_hex(whole[1]) + seq![32u8] + groups_hex(
            whole.skip(2),
        ));
        assert((gg + rest1)[0] == byte_hex(whole[0])[0]);
        assert((gg + rest1)[0] != 32);
        lemma_one_space(gg + rest1, 16);
        lemma_decode_groups(whole, rest1, 16);
        let k1 = (16 - whole.len()) as nat;
        assert(k1 >= 2);
        if s.len() % 2 == 1 {
            let last = s[s.len() - 1];
            lemma_byte_hex_chars(last);
            let t = seq![32u8] + rest1;
            assert(t[0] == 32 && t[1] == byte_hex(last)[0]);
            assert(t[1] != 32);
            let dd = byte_hex(last) + (spaces(padlen) + (sb + seq![10u8]));
            assert(t.skip(1) =~= dd);
            assert(dd[0] == byte_hex(last)[0] && dd[1] == byte_hex(last)[1]);
            assert(dd.skip(1) =~= seq![byte_hex(last)[1]] + (spaces(padlen) + (sb + seq![
                10u8,
            ])));
            assert(drop_spaces(dd.skip(1)) == dd.skip(1));
            assert(dd.skip(1)[0] == dd[1]);
            assert(hex_val_of(dd[0]) * 16 + hex_val_of(dd[1]) == last);
            assert(dd.skip(1).skip(1) =~= spaces(padlen) + (sb + seq![10u8]));
            assert(bytes_from(t, k1) == opt_prepend(
                seq![last],
                bytes_from(spaces(padlen) + (sb + seq![10u8]), (k1 - 1) as nat),
            ));
            lemma_padding_tail(cls, padlen, sb, (k1 - 1) as nat);
            lemma_opt_prepend_assoc(whole, seq![last], Some(Seq::<u8>::empty()));
            assert(whole + seq![last] =~= s);
            assert((whole + seq![last]) + Seq::<u8>::empty() =~= s);
        } else {
            let t = seq![32u8] + rest1;
            assert(t =~= spaces((padlen + 1) as nat) + (sb + seq![10u8]));
            lemma_padding_tail(cls, (padlen + 1) as nat, sb, k1);
            assert(whole =~= s);
            assert(s + Seq::<u8>::empty() =~= s);
        }
    } else {
        assert(whole =~= Seq::<u8>::empty());
        assert(gg == Seq::<u8>::empty());
        if s.len() % 2 == 1 {
            let last = s[0];
            lemma_byte_hex_chars(last);
            let body = seq![32u8] + (byte_hex(last) + (spaces(padlen) + (sb + seq![10u8])));
            assert(d =~= addrcolon + body);
            lemma_after_tokens_prefix(addrcolon, body);
            let t = body;
            assert(t[0] == 32 && t[1] == byte_hex(last)[0]);
            assert(t[1] != 32);
            let dd = byte_hex(last) + (spaces(padlen) + (sb + seq![10u8]));
            assert(t.skip(1) =~= dd);
            assert(dd[0] == byte_hex(last)[0] && dd[1] == byte_hex(last)[1]);
            assert(dd.skip(1) =~= seq![byte_hex(last)[1]] + (spaces(padlen) + (sb + seq![
                10u8,
            ])));
            assert(drop_spaces(dd.skip(1)) == dd.skip(1));
            assert(dd.skip(1)[0] == dd[1]);
            assert(hex_val_of(dd[0]) * 16 + hex_val_of(dd[1]) == last);
            assert(dd.skip(1).skip(1) =~= spaces(padlen) + (sb + seq![10u8]));
            assert(bytes_from(t, 16) == opt_prepend(
                seq![last],
                bytes_from(spaces(padlen) + (sb + seq![10u8]), 15),
            ));
            lemma_padding_tail(cls, padlen, sb, 15);
            assert(seq![last] + Seq::<u8>::empty() =~= s);
        } else {
            let body = seq![32u8] + (spaces(padlen) + (sb + seq![10u8]));
            assert(d =~= addrcolon + body);
            lemma_after_tokens_prefix(addrcolon, body);
            assert(body =~= spaces((padlen + 1) as nat) + (sb + seq![10u8]));
            lemma_padding_tail(cls, (padlen + 1) as nat, sb, 16);
            assert(s =~= Seq::<u8>::empty());
        }
    }
}

/// Round trip from any line address: the dump of `s` starting at `addr`
/// decodes to exactly `s`.
#[verifier::rlimit(100)]
proof fn lemma_round_trip_from(cls: spec_fn(u8) -> bool, s: Seq<u8>, addr: u32)
    requires
        cls(10) == false,
    ensures
        parse_dump(dump_from(cls, s, addr)) == Some(s),
    decreases s.len(),
{
    if s.len() >= 16 {
        lemma_hex_digit_chars();
        lemma_addrcolon_nonspace(addr);
        let d = dump_from(cls, s, addr);
        let addrcolon = u32_hex(addr) + seq![58u8];
        let t16 = s.take(16);
        let rest_s = s.skip(16);
        let addr2 = ((addr as int + 16) % 0x100000000) as u32;
        let dr = dump_from(cls, rest_s, addr2);
        let gg = groups_hex(t16);
        let sb = sidebar_of(cls, t16);
        assert(d == line_full(cls, addr, t16) + dr);
        let rest2 = seq![32u8] + sb + seq![10u8] + dr;
        let body = seq![32u8] + (gg + rest2);
        assert(d =~= addrcolon + body);
        lemma_after_tokens_prefix(addrcolon, body);
        lemma_byte_hex_chars(t16[0]);
        assert(gg == byte_hex(t16[0]) + byte_hex(t16[1]) + seq![32u8] + groups_hex(t16.skip(2)));
        assert((gg + rest2)[0] == byte_hex(t16[0])[0]);
        assert((gg + rest2)[0] != 32);
        lemma_one_space(gg + rest2, 16);
        lemma_decode_groups(t16, rest2, 16);
        let w = seq![32u8, 32u8] + sb;
        lemma_sidebar_no_newline(cls, t16);
        assert(forall|j: int| 0 <= j < w.len() ==> (#[trigger] w[j]) != 10) by {
            assert forall|j: int| 0 <= j < w.len() implies (#[trigger] w[j]) != 10 by {
                if j >= 2 {
                    assert(w[j] == sb[j - 2]);
                }
            }
        }
        assert(seq![32u8] + rest2 =~= w + (seq![10u8] + dr));
        lemma_scan_no_newline(w, seq![10u8] + dr);
        lemma_newline_then(dr);
        lemma_round_trip_from(cls, rest_s, addr2);
        assert(bytes_from(seq![32u8] + rest2, 0) == Some(rest_s));
        assert(parse_dump(d) == opt_prepend(t16, Some(rest_s)));
        assert(t16 + rest_s =~= s);
    } else {
        lemma_round_trip_short(cls, s, addr);
    }
}

/// A run of complete groups renders five characters for each pair of
/// bytes.
proof fn lemma_groups_hex_len(t: Seq<u8>)
    requires
        t.len() % 2 == 0,
    ensures
        groups_hex(t).len() == 5 * (t.len() as int / 2),
    decreases t.len(),
{
    if t.len() >= 2 {
        lemma_groups_hex_len(t.skip(2));
    }
}

/// Line `n` of a dump starting at `addr` begins at character `68 * n`,
/// with the eight hex characters of `addr + 16 * n`, wrapped to 32 bits.
proof fn lemma_address_field_from(cls: spec_fn(u8) -> bool, s: Seq<u8>, addr: u32, n: int)
    requires
        0 <= n,
        16 * n <= s.len(),
    ensures
        dump_from(cls, s, addr).len() >= 68 * n + 8,
        dump_from(cls, s, addr).subrange(68 * n, 68 * n + 8) == u32_hex(
            ((addr as int + 16 * n) % 0x100000000) as u32,
        ),
    decreases n,
{
    let d = dump_from(cls, s, addr);
    if n == 0 {
        assert(addr as int % 0x100000000 == addr as int) by {
            vstd::arithmetic::div_mod::lemma_small_mod(addr as nat, 0x100000000);
        };
        assert(d.subrange(0, 8) =~= u32_hex(addr));
    } else {
        let t16 = s.take(16);
        let rest_s = s.skip(16);
        let a1 = addr as int + 16;
        let addr2 = (a1 % 0x100000000) as u32;
        let dr = dump_from(cls, rest_s, addr2);
        assert(d == line_full(cls, addr, t16) + dr);
        lemma_groups_hex_len(t16);
        assert(line_full(cls, addr, t16).len() == 68);
        lemma_address_field_from(cls, rest_s, addr2, n - 1);
        assert(d.subrange(68 * n, 68 * n + 8) =~= dr.subrange(68 * (n - 1), 68 * (n - 1) + 8));
        let b = 16 * (n - 1);
        assert((a1 % 0x100000000 + b) % 0x100000000 == (a1 + b) % 0x100000000) by {
            vstd::arithmetic::div_mod::lemma_mod_twice(a1, 0x100000000);
            vstd::arithmetic::div_mod::lemma_add_mod_noop(a1 % 0x100000000, b, 0x100000000);
            vstd::arithmetic::div_mod::lemma_add_mod_noop(a1, b, 0x100000000);
        };
        assert(addr2 as int + 16 * (n - 1) == a1 % 0x100000000 + b);
        assert(a1 + b == addr as int + 16 * n);
    }
}

/// Address correctness: line `n` of the dump of `s` carries, as its first
/// eight characters, the hex representation of `16 * n`, wrapped to 32
/// bits.  Line `n` exists whenever the input holds at least `16 * n` bytes:
/// at exactly `16 * n` it is the final, empty line.
pub proof fn lemma_address_field(cls: spec_fn(u8) -> bool, s: Seq<u8>, n: int)
    requires
        0 <= n,
        16 * n <= s.len(),
    ensures
        dump_with(cls, s).len() >= 68 * n + 8,
        dump_with(cls, s).subrange(68 * n, 68 * n + 8) == u32_hex(
            ((16 * n) % 0x100000000) as u32,
        ),
{
    lemma_address_field_from(cls, s, 0, n);
}

/// Round trip under any sidebar classification that leaves the newline
/// byte non-printable: decoding the dump of `s` yields exactly `s`.
pub proof fn lemma_round_trip_classified(cls: spec_fn(u8) -> bool, s: Seq<u8>)
    requires
        cls(10) == false,
    ensures
        parse_dump(dump_with(cls, s)) == Some(s),
{
    lemma_round_trip_from(cls, s, 0);
}

/// Round trip: for every byte sequence, of every length, decoding the
/// dump of `s` yields exactly `s`.
pub proof fn lemma_round_trip(s: Seq<u8>)
    ensures
        parse_dump(dump_of(s)) == Some(s),
{
    assert(printable_cls()(10) == printable(10));
    lemma_round_trip_classified(printable_cls(), s);
}

/// The decoded bytes never depend on the sidebar classification: two
/// encodings of `s` that differ only in it decode alike.
pub proof fn lemma_sidebar_independent(
    cls1: spec_fn(u8) -> bool,
    cls2: spec_fn(u8) -> bool,
    s: Seq<u8>,
)
    requires
        cls1(10) == false,
        cls2(10) == false,
    ensures
        parse_dump(dump_with(cls1, s)) == parse_dump(dump_with(cls2, s)),
{
    lemma_round_trip_classified(cls1, s);
    lemma_round_trip_classified(cls2, s);
}

/// Encoding is a function of the input bytes alone: any two outputs that
/// meet the encoder's contract for the same input are identical.
pub proof fn lemma_encode_deterministic(o1: Seq<u8>, o2: Seq<u8>, s: Seq<u8>)
    requires
        o1 == dump_of(s),
        o2 == dump_of(s),
    ensures
        o1 == o2,
{
}

} // verus!
