//! The decoder: the bytes a hex dump spells, recovered one line at a time.
//!
//! Per line, the decoder discards nine characters (the address field and its
//! colon), counting any spaces between them as nothing, and then reads up to
//! sixteen bytes as pairs of lowercase hex characters, again letting single
//! spaces fall away.  A run of two or more spaces at a byte boundary is the
//! short-line padding gap: it ends the line's data, and everything up to the
//! next newline (the sidebar) is discarded, as it is after a full sixteen
//! bytes.  A newline where a byte would start also ends the line.  Clean end
//! of input anywhere is graceful exhaustion, not an error; any other
//! character standing where a hex digit is expected is a malformed digit and
//! aborts the decode.

use vstd::prelude::*;

use crate::hex::ascii_to_hex;
use crate::hex::hex_to_u8;
use crate::hex::hex_val_of;
use crate::hex::is_hex_char;
use crate::hex::is_hex_digit;

verus! {

/// The decoder's one error: a character other than `0`-`9`, `a`-`f`, a
/// space or a line boundary stood where a hex digit was expected.
#[derive(Clone, Copy, Debug, PartialEq, Eq, Structural)]
pub enum DecodeError {
    MalformedHexDigit,
}

/// `t` without its leading spaces.
pub open spec fn drop_spaces(t: Seq<u8>) -> Seq<u8>
    decreases t.len(),
{
    if t.len() == 0 {
        t
    } else if t[0] == 32 {
        drop_spaces(t.skip(1))
    } else {
        t
    }
}

/// Dropping spaces never lengthens a sequence.
pub proof fn lemma_drop_spaces_len(t: Seq<u8>)
    ensures
        drop_spaces(t).len() <= t.len(),
    decreases t.len(),
{
    if t.len() > 0 && t[0] == 32 {
        lemma_drop_spaces_len(t.skip(1));
    }
}

/// `t` with its first `n` non-space characters, and the spaces between
/// them, removed; all of `t` is consumed if it holds fewer.
pub open spec fn after_tokens(t: Seq<u8>, n: nat) -> Seq<u8>
    decreases n,
{
    if n == 0 {
        t
    } else {
        let d = drop_spaces(t);
        if d.len() == 0 {
            d
        } else {
            after_tokens(d.skip(1), (n - 1) as nat)
        }
    }
}

/// Skipping characters never lengthens a sequence, and strictly shortens a
/// nonempty one when at least one character is skipped.
pub proof fn lemma_after_tokens_len(t: Seq<u8>, n: nat)
    ensures
        after_tokens(t, n).len() <= t.len(),
        n > 0 && t.len() > 0 ==> after_tokens(t, n).len() < t.len(),
    decreases n,
{
    if n > 0 {
        lemma_drop_spaces_len(t);
        let d = drop_spaces(t);
        if d.len() > 0 {
            lemma_after_tokens_len(d.skip(1), (n - 1) as nat);
        }
    }
}

/// `o` with the bytes `p` put in front of its contents; an error stays an
/// error.
pub open spec fn opt_prepend(p: Seq<u8>, o: Option<Seq<u8>>) -> Option<Seq<u8>> {
    match o {
        Some(r) => Some(p + r),
        None => None,
    }
}

pub proof fn lemma_opt_prepend_empty(o: Option<Seq<u8>>)
    ensures
        opt_prepend(Seq::empty(), o) == o,
{
    match o {
        Some(r) => {
            assert(Seq::empty() + r =~= r);
        },
        None => {},
    }
}

pub proof fn lemma_opt_prepend_assoc(a: Seq<u8>, b: Seq<u8>, o: Option<Seq<u8>>)
    ensures
        opt_prepend(a, opt_prepend(b, o)) == opt_prepend(a + b, o),
{
    match o {
        Some(r) => {
            assert(a + (b + r) =~= (a + b) + r);
        },
        None => {},
    }
}

/// The bytes decoded from `t` with `k` byte slots left in the current line;
/// `k == 0` means the line's data is done and the scan runs to its newline.
/// `None` is the malformed-digit error; clean exhaustion yields the bytes
/// read so far.
pub open spec fn bytes_from(t: Seq<u8>, k: nat) -> Option<Seq<u8>>
    decreases t.len(),
    via bytes_from_dec
{
    if k == 0 {
        if t.len() == 0 {
            Some(Seq::empty())
        } else if t[0] == 10 {
            bytes_from(after_tokens(t.skip(1), 9), 16)
        } else {
            bytes_from(t.skip(1), 0)
        }
    } else {
        if t.len() >= 2 && t[0] == 32 && t[1] == 32 {
            bytes_from(t.skip(2), 0)
        } else {
            let d = if t.len() >= 1 && t[0] == 32 {
                t.skip(1)
            } else {
                t
            };
            if d.len() == 0 {
                Some(Seq::empty())
            } else if d[0] == 10 {
                bytes_from(after_tokens(d.skip(1), 9), 16)
            } else if !is_hex_char(d[0]) {
                None
            } else {
                let e = drop_spaces(d.skip(1));
                if e.len() == 0 {
                    Some(Seq::empty())
                } else if !is_hex_char(e[0]) {
                    None
                } else {
                    opt_prepend(
                        seq![(hex_val_of(d[0]) * 16 + hex_val_of(e[0])) as u8],
                        bytes_from(e.skip(1), (k - 1) as nat),
                    )
                }
            }
        }
    }
}

#[via_fn]
proof fn bytes_from_dec(t: Seq<u8>, k: nat) {
    if k == 0 {
        if t.len() > 0 && t[0] == 10 {
            lemma_after_tokens_len(t.skip(1), 9);
        }
    } else {
        if !(t.len() >= 2 && t[0] == 32 && t[1] == 32) {
            let d = if t.len() >= 1 && t[0] == 32 {
                t.skip(1)
            } else {
                t
            };
            if d.len() > 0 {
                if d[0] == 10 {
                    lemma_after_tokens_len(d.skip(1), 9);
                } else if is_hex_char(d[0]) {
                    lemma_drop_spaces_len(d.skip(1));
                }
            }
        }
    }
}

/// The bytes a dump spells: each line's first nine characters discarded,
/// then its data decoded.
pub open spec fn parse_dump(t: Seq<u8>) -> Option<Seq<u8>> {
    bytes_from(after_tokens(t, 9), 16)
}

/// The index of the first non-space character at or after `start`.
fn scan_spaces(input: &[u8], start: usize) -> (j: usize)
    requires
        start <= input.len(),
    ensures
        start <= j <= input.len(),
        drop_spaces(input@.skip(start as int)) == input@.skip(j as int),
        j < input.len() ==> input@[j as int] != 32,
{
    let mut j = start;
    while j < input.len() && input[j] == 32
        invariant
            start <= j <= input.len(),
            drop_spaces(input@.skip(start as int)) == drop_spaces(input@.skip(j as int)),
        decreases input.len() - j,
    {
        proof {
            assert(input@.skip(j as int).skip(1) =~= input@.skip(j as int + 1));
        }
        j += 1;
    }
    proof {
        if j == input.len() {
            assert(input@.skip(j as int) =~= Seq::<u8>::empty());
        }
    }
    j
}

/// Advance past `n` non-space characters, and the spaces between them,
/// starting at `start`; the result is the input's length if it holds fewer.
fn skip_tokens(input: &[u8], start: usize, n: usize) -> (j: usize)
    requires
        start <= input.len(),
    ensures
        start <= j <= input.len(),
        after_tokens(input@.skip(start as int), n as nat) == input@.skip(j as int),
{
    let mut j = start;
    let mut left = n;
    while left > 0
        invariant
            start <= j <= input.len(),
            after_tokens(input@.skip(start as int), n as nat) == after_tokens(
                input@.skip(j as int),
                left as nat,
            ),
        decreases left,
    {
        let m = scan_spaces(input, j);
        if m == input.len() {
            proof {
                assert(input@.skip(m as int) =~= Seq::<u8>::empty());
            }
            return input.len();
        }
        proof {
            assert(input@.skip(m as int).skip(1) =~= input@.skip(m as int + 1));
        }
        j = m + 1;
        left -= 1;
    }
    j
}

/// Reconstruct from a hex dump the bytes it spells.
#[verifier::rlimit(50)]
pub fn decode(input: &[u8]) -> (r: Result<Vec<u8>, DecodeError>)
    ensures
        match r {
            Ok(out) => parse_dump(input@) == Some(out@),
            Err(e) => parse_dump(input@) is None && e == DecodeError::MalformedHexDigit,
        },
{
    let mut out: Vec<u8> = Vec::new();
    let mut i: usize = skip_tokens(input, 0, 9);
    let mut k: usize = 16;
    proof {
        assert(input@.skip(0) =~= input@);
        lemma_opt_prepend_empty(bytes_from(input@.skip(i as int), 16));
        assert(out@ =~= Seq::<u8>::empty());
    }
    loop
        invariant
            i <= input.len(),
            k <= 16,
            parse_dump(input@) == opt_prepend(out@, bytes_from(input@.skip(i as int), k as nat)),
        decreases input.len() - i,
    {
        let ghost t = input@.skip(i as int);
        if k == 0 {
            if i == input.len() {
                proof {
                    assert(t =~= Seq::<u8>::empty());
                    assert(out@ + Seq::<u8>::empty() =~= out@);
                }
                return Ok(out);
            }
            let c = input[i];
            proof {
                assert(t[0] == c);
                assert(t.skip(1) =~= input@.skip(i as int + 1));
            }
            if c == 10 {
                let j = skip_tokens(input, i + 1, 9);
                i = j;
                k = 16;
            } else {
                i += 1;
            }
        } else {
            if i < input.len() && input[i] == 32 && i + 1 < input.len() && input[i + 1] == 32 {
                proof {
                    assert(t.len() >= 2 && t[0] == 32 && t[1] == 32);
                    assert(t.skip(2) =~= input@.skip(i as int + 2));
                }
                i += 2;
                k = 0;
            } else {
                proof {
                    assert(!(t.len() >= 2 && t[0] == 32 && t[1] == 32));
                }
                let mut d = i;
                if d < input.len() && input[d] == 32 {
                    d += 1;
                }
                let ghost ds = input@.skip(d as int);
                proof {
                    if i < input.len() && input@[i as int] == 32 {
                        assert(t.len() >= 1 && t[0] == 32);
                        assert(t.skip(1) =~= ds);
                    } else {
                        assert(!(t.len() >= 1 && t[0] == 32));
                        assert(ds =~= t);
                    }
                }
                if d == input.len() {
                    proof {
                        assert(ds =~= Seq::<u8>::empty());
                        assert(out@ + Seq::<u8>::empty() =~= out@);
                    }
                    return Ok(out);
                }
                let c1 = input[d];
                proof {
                    assert(ds[0] == c1);
                    assert(ds.skip(1) =~= input@.skip(d as int + 1));
                }
                if c1 == 10 {
                    let j = skip_tokens(input, d + 1, 9);
                    i = j;
                    k = 16;
                } else if !is_hex_digit(c1) {
                    return Err(DecodeError::MalformedHexDigit);
                } else {
                    let e = scan_spaces(input, d + 1);
                    let ghost es = input@.skip(e as int);
                    if e == input.len() {
                        proof {
                            assert(es =~= Seq::<u8>::empty());
                            assert(out@ + Seq::<u8>::empty() =~= out@);
                        }
                        return Ok(out);
                    }
                    let c2 = input[e];
                    proof {
                        assert(es[0] == c2);
                        assert(es.skip(1) =~= input@.skip(e as int + 1));
                    }
                    if !is_hex_digit(c2) {
                        return Err(DecodeError::MalformedHexDigit);
                    } else {
                        let b = hex_to_u8((ascii_to_hex(c1), ascii_to_hex(c2)));
                        let ghost out_old = out@;
                        out.push(b);
                        proof {
                            assert(bytes_from(t, k as nat) == opt_prepend(
                                seq![b],
                                bytes_from(input@.skip(e as int + 1), (k - 1) as nat),
                            ));
                            lemma_opt_prepend_assoc(
                                out_old,
                                seq![b],
                                bytes_from(input@.skip(e as int + 1), (k - 1) as nat),
                            );
                            assert(out@ =~= out_old + seq![b]);
                        }
                        i = e + 1;
                        k -= 1;
                    }
                }
            }
        }
    }
}

} // verus!
