//! Whitespace-separated token reading: splitting an input string into its
//! tokens, and parsing numeric tokens into integers. Tokens are maximal
//! runs of bytes separated by ASCII whitespace (space, tab, line feed,
//! carriage return).

use vstd::prelude::*;
use vstd::string::StringSliceAdditionalSpecFns;

verus! {

/// An ASCII whitespace byte: space, tab, line feed or carriage return.
pub open spec fn is_ws(b: u8) -> bool {
    b == 32 || b == 9 || b == 10 || b == 13
}

/// First index at or after `i` holding a whitespace byte, or the length of
/// the buffer if none follows: the end of the token starting at `i`.
pub open spec fn token_end(bytes: Seq<u8>, i: int) -> int
    decreases bytes.len() - i,
{
    if i < 0 || i >= bytes.len() {
        bytes.len() as int
    } else if is_ws(bytes[i]) {
        i
    } else {
        token_end(bytes, i + 1)
    }
}

/// The token end lies strictly beyond a non-whitespace start, within the
/// buffer, and everything up to it is non-whitespace while the byte at it,
/// if any, is whitespace.
pub proof fn lemma_token_end_bounds(bytes: Seq<u8>, i: int)
    requires
        0 <= i < bytes.len(),
        !is_ws(bytes[i]),
    ensures
        i < token_end(bytes, i) <= bytes.len(),
        forall|m: int| i <= m < token_end(bytes, i) ==> !is_ws(bytes[m]),
        token_end(bytes, i) < bytes.len() ==> is_ws(bytes[token_end(bytes, i)]),
    decreases bytes.len() - i,
{
    if i + 1 >= bytes.len() {
        assert(token_end(bytes, i) == token_end(bytes, i + 1));
        assert(token_end(bytes, i + 1) == bytes.len());
    } else if is_ws(bytes[i + 1]) {
        assert(token_end(bytes, i) == token_end(bytes, i + 1));
        assert(token_end(bytes, i + 1) == i + 1);
    } else {
        lemma_token_end_bounds(bytes, i + 1);
    }
}

#[via_fn]
proof fn tokens_from_dec(bytes: Seq<u8>, i: int) {
    if 0 <= i < bytes.len() && !is_ws(bytes[i]) {
        lemma_token_end_bounds(bytes, i);
    }
}

/// The whitespace-separated tokens of `bytes` from position `i` on: each
/// token is a maximal run of non-whitespace bytes, in input order.
pub open spec fn tokens_from(bytes: Seq<u8>, i: int) -> Seq<Seq<u8>>
    decreases bytes.len() - i,
    via tokens_from_dec
{
    if i < 0 || i >= bytes.len() {
        Seq::empty()
    } else if is_ws(bytes[i]) {
        tokens_from(bytes, i + 1)
    } else {
        seq![bytes.subrange(i, token_end(bytes, i))] + tokens_from(bytes, token_end(bytes, i))
    }
}

/// All the whitespace-separated tokens of `bytes`.
pub open spec fn spec_tokens(bytes: Seq<u8>) -> Seq<Seq<u8>> {
    tokens_from(bytes, 0)
}

/// An ASCII decimal digit.
pub open spec fn is_digit(b: u8) -> bool {
    48 <= b <= 57
}

/// Value of the decimal digits of `t` at positions `[s, e)`.
pub open spec fn digits_value(t: Seq<u8>, s: int, e: int) -> int
    decreases e - s,
{
    if e <= s {
        0
    } else {
        digits_value(t, s, e - 1) * 10 + (t[e - 1] - 48)
    }
}

/// A token that reads as a decimal integer: an optional leading minus sign
/// followed by one or more digits and nothing else.
pub open spec fn is_int_token(t: Seq<u8>) -> bool {
    if t.len() >= 1 && t[0] == 45 {
        t.len() >= 2 && forall|i: int| 1 <= i < t.len() ==> is_digit(#[trigger] t[i])
    } else {
        t.len() >= 1 && forall|i: int| 0 <= i < t.len() ==> is_digit(#[trigger] t[i])
    }
}

/// The integer a token denotes.
pub open spec fn token_value(t: Seq<u8>) -> int {
    if t.len() >= 1 && t[0] == 45 {
        -digits_value(t, 1, t.len() as int)
    } else {
        digits_value(t, 0, t.len() as int)
    }
}

/// Digit values are non-negative and grow as digits are appended.
pub proof fn lemma_digits_value_monotone(t: Seq<u8>, s: int, e: int)
    requires
        s <= e,
        forall|i: int| s <= i < e ==> is_digit(#[trigger] t[i]),
    ensures
        digits_value(t, s, e) >= 0,
        forall|m: int| s <= m <= e ==> #[trigger] digits_value(t, s, m) <= digits_value(t, s, e),
    decreases e - s,
{
    if e > s {
        lemma_digits_value_monotone(t, s, e - 1);
    }
}

/// Parses every whitespace-separated token of `s` as a decimal integer, in
/// input order. Tokens that are not integers, or whose value does not fit
/// a 64-bit signed integer, are ruled out by the precondition: the input
/// reader owns that contract.
pub fn string_to_parsed_tokens(s: &str) -> (r: Vec<i64>)
    requires
        forall|t: int| 0 <= t < spec_tokens(s.spec_bytes()).len() ==> is_int_token(
            #[trigger] spec_tokens(s.spec_bytes())[t],
        ),
        forall|t: int| 0 <= t < spec_tokens(s.spec_bytes()).len() ==> i64::MIN <= token_value(
            #[trigger] spec_tokens(s.spec_bytes())[t],
        ) <= i64::MAX,
    ensures
        r@.len() == spec_tokens(s.spec_bytes()).len(),
        forall|t: int| 0 <= t < r@.len() ==> #[trigger] r@[t] as int == token_value(
            spec_tokens(s.spec_bytes())[t],
        ),
{
    let bytes = s.as_bytes();
    let ghost sb = s.spec_bytes();
    let ghost toks = spec_tokens(sb);
    let n = bytes.len();
    let mut out: Vec<i64> = Vec::new();
    let mut i: usize = 0;
    while i < n
        invariant
            0 <= i <= n,
            bytes@ == sb,
            n == sb.len(),
            toks == spec_tokens(sb),
            forall|t: int| 0 <= t < toks.len() ==> is_int_token(#[trigger] toks[t]),
            forall|t: int| 0 <= t < toks.len() ==> i64::MIN <= token_value(#[trigger] toks[t])
                <= i64::MAX,
            out@.len() <= toks.len(),
            tokens_from(sb, i as int) == toks.skip(out@.len() as int),
            forall|t: int| 0 <= t < out@.len() ==> #[trigger] out@[t] as int == token_value(
                toks[t],
            ),
        decreases n - i,
    {
        if is_ws_byte(bytes[i]) {
            i = i + 1;
        } else {
            proof {
                lemma_token_end_bounds(sb, i as int);
            }
            let ghost tend = token_end(sb, i as int);
            let ghost tok = sb.subrange(i as int, tend);
            let ghost m = out@.len() as int;
            proof {
                assert(tokens_from(sb, i as int) == seq![tok] + tokens_from(sb, tend));
                assert(toks.skip(m)[0] == tok);
                assert(toks[m] == tok);
                assert(toks.skip(m).drop_first() =~= toks.skip(m + 1));
                assert((seq![tok] + tokens_from(sb, tend)).drop_first() =~= tokens_from(sb, tend));
            }
            // sign
            let negative = bytes[i] == 45u8;
            let mut j: usize = if negative {
                i + 1
            } else {
                i
            };
            let ghost ds = j as int;
            proof {
                if negative {
                    assert(tok[0] == 45);
                    assert(tok.len() >= 2);
                    assert(tend - (i as int) >= 2);
                }
                assert(forall|p: int| ds <= p < tend ==> is_digit(#[trigger] sb[p])) by {
                    assert(forall|p: int| i as int <= p < tend ==> sb[p] == tok[p - i as int]);
                }
                lemma_digits_value_monotone(sb, ds, tend);
                lemma_digits_shift(sb, tok, i as int, ds, tend, tend);
                assert(digits_value(sb, ds, tend) == digits_value(
                    tok,
                    ds - i as int,
                    tok.len() as int,
                ));
                if negative {
                    assert(token_value(tok) == -digits_value(tok, 1, tok.len() as int));
                    assert(digits_value(sb, ds, tend) <= 0x8000000000000000u64 as int);
                } else {
                    assert(token_value(tok) == digits_value(tok, 0, tok.len() as int));
                    assert(digits_value(sb, ds, tend) <= 0x8000000000000000u64 as int);
                }
            }
            let mut acc: u64 = 0;
            while j < n && !(bytes[j] == 32 || bytes[j] == 9 || bytes[j] == 10 || bytes[j] == 13)
                invariant
                    ds <= j <= tend <= n,
                    n == sb.len(),
                    bytes@ == sb,
                    tend == token_end(sb, i as int),
                    i <= ds,
                    forall|p: int| ds <= p < tend ==> is_digit(#[trigger] sb[p]),
                    forall|m2: int| ds <= m2 <= tend ==> #[trigger] digits_value(sb, ds, m2)
                        <= digits_value(sb, ds, tend),
                    digits_value(sb, ds, tend) >= 0,
                    digits_value(sb, ds, tend) <= 0x8000000000000000u64 as int,
                    acc == digits_value(sb, ds, j as int),
                    tend < n ==> is_ws(sb[tend as int]),
                    forall|p: int| i as int <= p < tend ==> !is_ws(#[trigger] sb[p]),
                decreases n - j,
            {
                proof {
                    assert(j < tend) by {
                        if j as int >= tend {
                            assert(is_ws(sb[j as int]));
                        }
                    }
                    assert(is_digit(sb[j as int]));
                    assert(digits_value(sb, ds, j as int + 1) == acc * 10 + (sb[j as int] - 48));
                    assert(digits_value(sb, ds, j as int + 1) <= digits_value(sb, ds, tend));
                }
                let d = bytes[j] - 48;
                acc = acc * 10 + (d as u64);
                j = j + 1;
            }
            proof {
                assert(j as int == tend) by {
                    if (j as int) < tend {
                        assert(!is_ws(sb[j as int]));
                    }
                }
            }
            let value: i64 = if negative {
                proof {
                    assert(acc as int == digits_value(tok, 1, tok.len() as int));
                }
                let wide: i128 = -(acc as i128);
                wide as i64
            } else {
                proof {
                    assert(acc as int == digits_value(tok, 0, tok.len() as int));
                    assert(acc as int == token_value(toks[m]));
                }
                acc as i64
            };
            proof {
                assert(value as int == token_value(toks[m]));
            }
            let ghost oldout = out@;
            out.push(value);
            proof {
                assert(out@[m] == value);
                assert(forall|t: int| 0 <= t < oldout.len() ==> out@[t] == oldout[t]);
            }
            i = j;
        }
    }
    proof {
        assert(tokens_from(sb, n as int) == Seq::<Seq<u8>>::empty());
        assert(toks.skip(out@.len() as int).len() == 0);
    }
    out
}

/// Digit values read the same through the token as through the buffer it
/// was cut from.
proof fn lemma_digits_shift(sb: Seq<u8>, tok: Seq<u8>, start: int, s: int, e: int, end: int)
    requires
        0 <= start <= s <= e <= end <= sb.len(),
        tok == sb.subrange(start, end),
    ensures
        digits_value(sb, s, e) == digits_value(tok, s - start, e - start),
    decreases e - s,
{
    if e > s {
        lemma_digits_shift(sb, tok, start, s, e - 1, end);
        assert(sb[e - 1] == tok[e - 1 - start]);
    }
}

/// Whether a byte is ASCII whitespace, as the tokenizer counts it.
fn is_ws_byte(b: u8) -> (r: bool)
    ensures
        r == is_ws(b),
{
    b == 32 || b == 9 || b == 10 || b == 13
}

/// The position right after a token-start determined by a byte scan: if
/// nothing before `e` is whitespace and `e` holds whitespace or the end,
/// then `e` is the token end.
proof fn lemma_token_end_value(sb: Seq<u8>, i: int, e: int)
    requires
        0 <= i <= e <= sb.len(),
        forall|p: int| i <= p < e ==> !is_ws(#[trigger] sb[p]),
        e < sb.len() ==> is_ws(sb[e]),
    ensures
        token_end(sb, i) == e,
    decreases e - i,
{
    if i < e {
        lemma_token_end_value(sb, i + 1, e);
    }
}

/// In valid UTF-8, the position after a leading ASCII byte is a character
/// boundary: an ASCII byte always encodes a whole one-byte character.
proof fn lemma_ascii_first_boundary(b: Seq<u8>)
    requires
        vstd::utf8::valid_utf8(b),
        b.len() >= 1,
        b[0] <= 0x7f,
    ensures
        vstd::utf8::is_char_boundary(b, 1),
{
    reveal_with_fuel(vstd::utf8::valid_utf8, 2);
    reveal_with_fuel(vstd::utf8::is_char_boundary, 2);
    assert(vstd::utf8::is_leading_byte_width_1(b[0]));
    assert(vstd::utf8::length_of_first_scalar(b) == 1);
    assert(vstd::utf8::is_char_boundary(vstd::utf8::pop_first_scalar(b), 0));
}

/// Splits a string into its whitespace-separated tokens, in input order:
/// each token is a maximal run of non-whitespace bytes, owned as a string
/// of its own. Empty runs between adjacent separators yield no token.
pub fn split_tokens(s: &str) -> (r: Vec<String>)
    ensures
        r@.len() == spec_tokens(s.spec_bytes()).len(),
        forall|t: int| 0 <= t < r@.len() ==> vstd::utf8::encode_utf8(#[trigger] r@[t]@)
            == spec_tokens(s.spec_bytes())[t],
{
    broadcast use vstd::utf8::encode_utf8_valid_utf8;
    broadcast use vstd::utf8::is_char_boundary_start_end_of_seq;

    let ghost sb = s.spec_bytes();
    let ghost toks = spec_tokens(sb);
    let ghost n = sb.len() as int;
    let mut out: Vec<String> = Vec::new();
    let mut rem: &str = s;
    let ghost mut i: int = 0;
    while !rem.is_empty()
        invariant
            0 <= i <= n,
            n == sb.len(),
            toks == spec_tokens(sb),
            rem.spec_bytes() == sb.subrange(i, n),
            rem.spec_bytes().len() == n - i,
            out@.len() <= toks.len(),
            tokens_from(sb, i) == toks.skip(out@.len() as int),
            forall|t: int| 0 <= t < out@.len() ==> vstd::utf8::encode_utf8(#[trigger] out@[t]@)
                == toks[t],
        decreases n - i,
    {
        let rb = rem.as_bytes();
        let ghost remb = rem.spec_bytes();
        proof {
            vstd::utf8::encode_utf8_valid_utf8(rem@);
            assert(vstd::utf8::valid_utf8(remb));
            assert(remb.len() >= 1) by {
                assert(remb == vstd::utf8::encode_scalar(rem@[0] as u32) + vstd::utf8::encode_utf8(
                    rem@.drop_first(),
                ));
                assert(vstd::utf8::encode_scalar(rem@[0] as u32).len() >= 1);
            }
            assert(remb[0] == sb[i]);
        }
        if is_ws_byte(rb[0]) {
            proof {
                lemma_ascii_first_boundary(remb);
            }
            let parts = rem.split_at(1);
            rem = parts.1;
            proof {
                assert(rem.spec_bytes() =~= sb.subrange(i + 1, n));
                assert(is_ws(sb[i]));
                assert(tokens_from(sb, i) == tokens_from(sb, i + 1));
                i = i + 1;
            }
        } else {
            let rn = rem.len();
            let mut t: usize = 1;
            while t < rn && !(rb[t] == 32 || rb[t] == 9 || rb[t] == 10 || rb[t] == 13)
                invariant
                    1 <= t <= rn,
                    rn == remb.len(),
                    rb@ == remb,
                    forall|p: int| 0 <= p < t ==> !is_ws(#[trigger] remb[p]),
                decreases rn - t,
            {
                t = t + 1;
            }
            let ghost tend = i + t as int;
            proof {
                assert(forall|p: int| i <= p < tend ==> sb[p] == remb[p - i]);
                assert(forall|p: int| i <= p < tend ==> !is_ws(#[trigger] sb[p]));
                if tend < n {
                    assert(is_ws(remb[t as int]));
                    assert(is_ws(sb[tend]));
                }
                lemma_token_end_value(sb, i, tend);
                assert(tokens_from(sb, i) == seq![sb.subrange(i, tend)] + tokens_from(sb, tend));
                // the split point is a character boundary: either the end of
                // the string or a whitespace byte, which is never a UTF-8
                // continuation byte
                if (t as int) < remb.len() {
                    vstd::utf8::is_char_boundary_iff_not_is_continuation_byte(remb, t as int);
                    assert(!vstd::utf8::is_continuation_byte(remb[t as int]));
                } else {
                    vstd::utf8::is_char_boundary_start_end_of_seq(remb);
                }
                assert(vstd::utf8::is_char_boundary(remb, t as int));
            }
            let parts = rem.split_at(t);
            let tok = parts.0;
            let ghost m = out@.len() as int;
            proof {
                assert(tok.spec_bytes() =~= sb.subrange(i, tend)) by {
                    assert(tok.spec_bytes() == remb.subrange(0, t as int));
                }
                assert(toks.skip(m)[0] == sb.subrange(i, tend));
                assert(toks[m] == sb.subrange(i, tend));
                assert(toks.skip(m).drop_first() =~= toks.skip(m + 1));
                assert((seq![sb.subrange(i, tend)] + tokens_from(sb, tend)).drop_first()
                    =~= tokens_from(sb, tend));
            }
            let owned = tok.to_owned();
            proof {
                assert(vstd::utf8::encode_utf8(owned@) == tok.spec_bytes());
            }
            let ghost oldout = out@;
            out.push(owned);
            rem = parts.1;
            proof {
                assert(forall|t2: int| 0 <= t2 < oldout.len() ==> out@[t2] == oldout[t2]);
                assert(out@[m]@ == owned@);
                assert(rem.spec_bytes() =~= sb.subrange(tend, n));
                i = tend;
            }
        }
    }
    proof {
        assert(rem.spec_bytes().len() == 0) by {
            assert(rem@.len() == 0);
            assert(vstd::utf8::encode_utf8(rem@) == Seq::<u8>::empty());
        }
        assert(i == n);
        assert(tokens_from(sb, n) == Seq::<Seq<u8>>::empty());
        assert(toks.skip(out@.len() as int).len() == 0);
    }
    out
}

} // verus!
