//! Byte-level encodings of the numeric fields: decimal for amounts and
//! timestamps, fixed-width lowercase hexadecimal for identifiers. Each
//! encoding comes with the lemmas that make the persistence format
//! round-trip: parsing an encoding yields the encoded value back.

use vstd::prelude::*;

verus! {

pub open spec fn is_digit(b: u8) -> bool {
    0x30 <= b <= 0x39
}

pub fn is_digit_byte(b: u8) -> (r: bool)
    ensures
        r == is_digit(b),
{
    0x30 <= b && b <= 0x39
}

/// The decimal digits of `n`, most significant first, no leading zeros.
pub open spec fn dec_rep(n: u64) -> Seq<u8>
    decreases n,
{
    if n < 10 {
        seq![(0x30 + n) as u8]
    } else {
        dec_rep(n / 10).push((0x30 + n % 10) as u8)
    }
}

/// The value of a digit string read in base ten.
pub open spec fn dec_val(s: Seq<u8>) -> int
    decreases s.len(),
{
    if s.len() == 0 {
        0
    } else {
        dec_val(s.drop_last()) * 10 + (s.last() - 0x30)
    }
}

pub proof fn lemma_dec_rep_digits(n: u64)
    ensures
        dec_rep(n).len() >= 1,
        forall|k: int| 0 <= k < dec_rep(n).len() ==> is_digit(#[trigger] dec_rep(n)[k]),
    decreases n,
{
    if n >= 10 {
        lemma_dec_rep_digits(n / 10);
    }
}

pub proof fn lemma_dec_val_of_rep(n: u64)
    ensures
        dec_val(dec_rep(n)) == n,
    decreases n,
{
    if n < 10 {
        assert(dec_rep(n) =~= seq![(0x30 + n) as u8]);
        assert(dec_rep(n).len() == 1);
        assert(dec_rep(n).last() == (0x30 + n) as u8);
        assert(dec_rep(n).drop_last() =~= Seq::<u8>::empty());
        assert(dec_val(dec_rep(n).drop_last()) == 0);
        assert(dec_val(dec_rep(n)) == 0 * 10 + ((0x30 + n) as u8 - 0x30));
    } else {
        lemma_dec_val_of_rep(n / 10);
        assert(dec_rep(n) == dec_rep(n / 10).push((0x30 + n % 10) as u8));
        assert(dec_rep(n).drop_last() =~= dec_rep(n / 10));
        assert(dec_rep(n).last() == (0x30 + n % 10) as u8);
        assert(dec_val(dec_rep(n)) == dec_val(dec_rep(n / 10)) * 10 + ((0x30 + n % 10) as u8
            - 0x30));
        vstd::arithmetic::div_mod::lemma_fundamental_div_mod(n as int, 10);
        assert(n == 10 * ((n as int) / 10) + (n as int) % 10);
    }
}

pub proof fn lemma_dec_val_nonneg(s: Seq<u8>)
    requires
        forall|k: int| 0 <= k < s.len() ==> is_digit(#[trigger] s[k]),
    ensures
        dec_val(s) >= 0,
    decreases s.len(),
{
    if s.len() > 0 {
        lemma_dec_val_nonneg(s.drop_last());
    }
}

/// Reading a prefix of a digit string never exceeds the whole string's value.
pub proof fn lemma_dec_val_prefix_le(s: Seq<u8>, i: int)
    requires
        forall|k: int| 0 <= k < s.len() ==> is_digit(#[trigger] s[k]),
        0 <= i <= s.len(),
    ensures
        dec_val(s.subrange(0, i)) <= dec_val(s),
    decreases s.len(),
{
    if s.len() == 0 {
        assert(s.subrange(0, i) =~= s);
    } else if i == s.len() {
        assert(s.subrange(0, i) =~= s);
    } else {
        let t = s.drop_last();
        assert(s.subrange(0, i) =~= t.subrange(0, i));
        lemma_dec_val_prefix_le(t, i);
        lemma_dec_val_nonneg(t);
        assert(dec_val(s) == dec_val(t) * 10 + (s.last() - 0x30));
        assert(dec_val(t) * 10 >= dec_val(t)) by (nonlinear_arith)
            requires
                dec_val(t) >= 0,
        ;
    }
}

/// Appends the decimal digits of `n`.
pub fn push_dec_u64(n: u64, out: &mut Vec<u8>)
    ensures
        final(out)@ == old(out)@ + dec_rep(n),
    decreases n,
{
    if n < 10 {
        out.push(0x30 + n as u8);
        assert(out@ =~= old(out)@ + dec_rep(n));
    } else {
        assert(n / 10 < n);
        push_dec_u64(n / 10, out);
        out.push(0x30 + (n % 10) as u8);
        assert(out@ =~= old(out)@ + dec_rep(n));
    }
}

/// A decimal number stands at `[start, end)` in `s`, delimited on the right.
pub open spec fn dec_at(s: Seq<u8>, start: int, end: int, n: u64) -> bool {
    &&& 0 <= start <= end <= s.len()
    &&& s.subrange(start, end) == dec_rep(n)
    &&& (end == s.len() || !is_digit(s[end]))
}

/// Reads a decimal `u64` starting at `start`, greedily, stopping at the
/// first non-digit. Whenever a delimited encoding of some `n` stands at
/// `start`, the parse returns exactly that `n` and stops exactly past it.
pub fn parse_dec_u64(s: &Vec<u8>, start: usize) -> (r: Option<(u64, usize)>)
    requires
        start <= s@.len(),
    ensures
        forall|n: u64, end: usize| dec_at(s@, start as int, end as int, n) ==> r == Some((n, end)),
        r matches Some(p) ==> start < p.1 <= s@.len(),
{
    let len: usize = s.len();
    if start == len || !is_digit_byte(s[start]) {
        proof {
            assert forall|n: u64, end: usize| dec_at(s@, start as int, end as int, n) implies false by {
                lemma_dec_rep_digits(n);
                assert(s@.subrange(start as int, end as int).len() >= 1);
                assert(s@[start as int] == s@.subrange(start as int, end as int)[0]);
            }
        }
        return None;
    }
    let mut i: usize = start;
    let mut acc: u64 = 0;
    loop
        invariant
            start <= i <= len,
            start < len,
            len == s@.len(),
            is_digit(s@[start as int]),
            forall|k: int| start <= k < i ==> is_digit(#[trigger] s@[k]),
            acc == dec_val(s@.subrange(start as int, i as int)),
        decreases len - i,
    {
        if i == len || !is_digit_byte(s[i]) {
            if i == start {
                // unreachable: the first byte was a digit
                proof {
                    assert(false);
                }
            }
            proof {
                assert forall|n: u64, end: usize| dec_at(
                    s@,
                    start as int,
                    end as int,
                    n,
                ) implies Some((acc, i)) == Some((n, end)) by {
                    lemma_dec_rep_digits(n);
                    let sub = s@.subrange(start as int, end as int);
                    assert(forall|k: int| start <= k < end ==> s@[k] == sub[k - start]);
                    assert(forall|k: int| start <= k < end ==> is_digit(#[trigger] s@[k]));
                    if end < i {
                        assert(is_digit(s@[end as int]));
                        assert(false);
                    }
                    if end > i {
                        assert(is_digit(s@[i as int]));
                        assert(false);
                    }
                    assert(end == i);
                    assert(sub =~= s@.subrange(start as int, i as int));
                    lemma_dec_val_of_rep(n);
                }
            }
            return Some((acc, i));
        }
        let d: u64 = (s[i] - 0x30) as u64;
        if acc > (u64::MAX - d) / 10 {
            proof {
                assert(acc * 10 + d > u64::MAX) by (nonlinear_arith)
                    requires
                        acc > (u64::MAX - d) / 10,
                        d <= 9,
                ;
                assert forall|n: u64, end: usize| dec_at(
                    s@,
                    start as int,
                    end as int,
                    n,
                ) implies false by {
                    lemma_dec_rep_digits(n);
                    let sub = s@.subrange(start as int, end as int);
                    assert(forall|k: int| start <= k < end ==> s@[k] == sub[k - start]);
                    assert(forall|k: int| start <= k < end ==> is_digit(#[trigger] s@[k]));
                    if end <= i {
                        assert(is_digit(s@[end as int]));
                        assert(false);
                    }
                    assert(i + 1 <= end);
                    let pre = s@.subrange(start as int, i + 1);
                    assert(pre =~= sub.subrange(0, i + 1 - start));
                    lemma_dec_val_prefix_le(sub, i + 1 - start);
                    lemma_dec_val_of_rep(n);
                    assert(pre.drop_last() =~= s@.subrange(start as int, i as int));
                    assert(dec_val(pre) == acc * 10 + d);
                }
            }
            return None;
        }
        proof {
            assert(acc * 10 + d <= u64::MAX) by (nonlinear_arith)
                requires
                    acc <= (u64::MAX - d) / 10,
                    d <= 9,
                    acc >= 0,
            ;
            let pre = s@.subrange(start as int, i + 1);
            assert(pre.drop_last() =~= s@.subrange(start as int, i as int));
            assert(pre.last() == s@[i as int]);
        }
        acc = acc * 10 + d;
        i = i + 1;
    }
}

/// The decimal digits of `a`, preceded by a minus sign when negative.
pub open spec fn int_rep(a: i64) -> Seq<u8> {
    if a >= 0 {
        dec_rep(a as u64)
    } else {
        seq![0x2du8] + dec_rep((-(a as int)) as u64)
    }
}

/// A signed decimal number stands at `[start, end)` in `s`, delimited on the
/// right.
pub open spec fn int_at(s: Seq<u8>, start: int, end: int, a: i64) -> bool {
    &&& 0 <= start <= end <= s.len()
    &&& s.subrange(start, end) == int_rep(a)
    &&& (end == s.len() || !is_digit(s[end]))
}

/// Reads a signed decimal `i64`: an optional minus sign, then digits.
pub fn parse_dec_i64(s: &Vec<u8>, start: usize) -> (r: Option<(i64, usize)>)
    requires
        start <= s@.len(),
    ensures
        forall|a: i64, end: usize| int_at(s@, start as int, end as int, a) ==> r == Some((a, end)),
        r matches Some(p) ==> start < p.1 <= s@.len(),
{
    let len: usize = s.len();
    if start < len && s[start] == 0x2d {
        let inner = parse_dec_u64(s, start + 1);
        match inner {
            Some((m, j)) => {
                if m <= 0x7fff_ffff_ffff_ffffu64 {
                    let a: i64 = -(m as i64);
                    proof {
                        lemma_int_at_neg(s@, start as int, a, m, j as int);
                    }
                    Some((a, j))
                } else if m == 0x8000_0000_0000_0000u64 {
                    let a: i64 = i64::MIN;
                    proof {
                        lemma_int_at_neg(s@, start as int, a, m, j as int);
                    }
                    Some((a, j))
                } else {
                    proof {
                        assert forall|a: i64, end: usize| int_at(
                            s@,
                            start as int,
                            end as int,
                            a,
                        ) implies false by {
                            lemma_int_neg_shape(s@, start as int, end as int, a);
                            let m2 = (-(a as int)) as u64;
                            assert(dec_at(s@, start + 1, end as int, m2));
                            assert(inner == Some((m2, end)));
                        }
                    }
                    None
                }
            },
            None => {
                proof {
                    assert forall|a: i64, end: usize| int_at(
                        s@,
                        start as int,
                        end as int,
                        a,
                    ) implies false by {
                        lemma_int_neg_shape(s@, start as int, end as int, a);
                        let m2 = (-(a as int)) as u64;
                        assert(dec_at(s@, start + 1, end as int, m2));
                    }
                }
                None
            },
        }
    } else {
        let inner = parse_dec_u64(s, start);
        match inner {
            Some((m, j)) => {
                if m <= 0x7fff_ffff_ffff_ffffu64 {
                    proof {
                        assert forall|a: i64, end: usize| int_at(
                            s@,
                            start as int,
                            end as int,
                            a,
                        ) implies Some(((m as i64), j)) == Some((a, end)) by {
                            lemma_int_pos_shape(s@, start as int, end as int, a);
                            assert(dec_at(s@, start as int, end as int, (a as u64)));
                            assert(inner == Some(((a as u64), end)));
                        }
                    }
                    Some((m as i64, j))
                } else {
                    proof {
                        assert forall|a: i64, end: usize| int_at(
                            s@,
                            start as int,
                            end as int,
                            a,
                        ) implies false by {
                            lemma_int_pos_shape(s@, start as int, end as int, a);
                            assert(dec_at(s@, start as int, end as int, (a as u64)));
                        }
                    }
                    None
                }
            },
            None => {
                proof {
                    assert forall|a: i64, end: usize| int_at(
                        s@,
                        start as int,
                        end as int,
                        a,
                    ) implies false by {
                        lemma_int_pos_shape(s@, start as int, end as int, a);
                        assert(dec_at(s@, start as int, end as int, (a as u64)));
                    }
                }
                None
            },
        }
    }
}

/// When the byte at `start` is not a minus sign, a delimited signed number
/// there must be nonnegative, and its digits are the plain decimal encoding.
proof fn lemma_int_pos_shape(s: Seq<u8>, start: int, end: int, a: i64)
    requires
        int_at(s, start, end, a),
        start == s.len() || s[start] != 0x2d,
    ensures
        a >= 0,
        dec_at(s, start, end, (a as u64)),
{
    let sub = s.subrange(start, end);
    if a < 0 {
        let m = (-(a as int)) as u64;
        lemma_dec_rep_digits(m);
        assert(sub.len() == int_rep(a).len());
        assert(int_rep(a)[0] == 0x2d);
        assert(sub[0] == s[start]);
        assert(false);
    }
    assert(sub == dec_rep(a as u64));
}

/// Behind a minus sign, a delimited signed number must be negative, and its
/// magnitude's digits follow the sign.
proof fn lemma_int_neg_shape(s: Seq<u8>, start: int, end: int, a: i64)
    requires
        int_at(s, start, end, a),
        start < s.len(),
        s[start] == 0x2d,
    ensures
        a < 0,
        dec_at(s, start + 1, end, ((-(a as int)) as u64)),
{
    let sub = s.subrange(start, end);
    if a >= 0 {
        lemma_dec_rep_digits(a as u64);
        assert(sub.len() >= 1);
        assert(sub[0] == dec_rep(a as u64)[0]);
        assert(is_digit(dec_rep(a as u64)[0]));
        assert(sub[0] == s[start]);
        assert(false);
    }
    let m = (-(a as int)) as u64;
    lemma_dec_rep_digits(m);
    assert(sub.len() == 1 + dec_rep(m).len());
    assert forall|k: int| 0 <= k < dec_rep(m).len() implies s.subrange(start + 1, end)[k]
        == dec_rep(m)[k] by {
        assert(s.subrange(start + 1, end)[k] == s[start + 1 + k]);
        assert(sub[k + 1] == s[start + 1 + k]);
        assert(sub[k + 1] == (seq![0x2du8] + dec_rep(m))[k + 1]);
    }
    assert(s.subrange(start + 1, end) =~= dec_rep(m));
}

/// A successfully bounded magnitude after a minus sign gives back the signed
/// value whose encoding stood there.
proof fn lemma_int_at_neg(s: Seq<u8>, start: int, a: i64, m: u64, j: int)
    requires
        start < s.len(),
        s[start] == 0x2d,
        a as int == -(m as int),
        forall|n: u64, end: usize| #[trigger] dec_at(s, start + 1, end as int, n) ==> Some((
            m,
            j as usize,
        )) == Some((n, end)),
    ensures
        forall|a2: i64, end: usize| int_at(s, start, end as int, a2) ==> Some((a, j as usize))
            == Some((a2, end)),
{
    assert forall|a2: i64, end: usize| int_at(s, start, end as int, a2) implies Some((
        a,
        j as usize,
    )) == Some((a2, end)) by {
        lemma_int_neg_shape(s, start, end as int, a2);
        let m2 = (-(a2 as int)) as u64;
        assert(dec_at(s, start + 1, end as int, m2));
        assert(m2 == m);
        assert(end == j as usize);
        assert(m2 as int == -(a2 as int));
        assert(a == a2);
    }
}

/// Appends the signed decimal digits of `a`.
pub fn push_dec_i64(a: i64, out: &mut Vec<u8>)
    ensures
        final(out)@ == old(out)@ + int_rep(a),
{
    if a >= 0 {
        push_dec_u64(a as u64, out);
    } else {
        out.push(0x2d);
        let m: u64 = if a == i64::MIN {
            0x8000_0000_0000_0000u64
        } else {
            (-a) as u64
        };
        assert(m == (-(a as int)) as u64);
        push_dec_u64(m, out);
        assert(out@ =~= old(out)@ + int_rep(a));
    }
}

pub open spec fn is_hex(b: u8) -> bool {
    (0x30 <= b <= 0x39) || (0x61 <= b <= 0x66)
}

/// The value of one lowercase hexadecimal digit byte.
pub open spec fn hex_digit_val(b: u8) -> int {
    if 0x30 <= b <= 0x39 {
        b - 0x30
    } else {
        b - 0x57
    }
}

/// The lowercase hexadecimal digit byte for a value below sixteen.
pub open spec fn hex_digit(d: int) -> u8 {
    if d < 10 {
        (0x30 + d) as u8
    } else {
        (0x57 + d) as u8
    }
}

/// Sixteen to the `k`.
pub open spec fn pow16(k: nat) -> int
    decreases k,
{
    if k == 0 {
        1
    } else {
        16 * pow16((k - 1) as nat)
    }
}

/// The low `k` nibbles of `n` as lowercase hexadecimal, most significant
/// first, zero-padded to exactly `k` digits.
pub open spec fn hex_rep(k: nat, n: u128) -> Seq<u8>
    decreases k,
{
    if k == 0 {
        Seq::empty()
    } else {
        hex_rep((k - 1) as nat, n / 16).push(hex_digit((n % 16) as int))
    }
}

/// The value of a hexadecimal digit string.
pub open spec fn hex_val(s: Seq<u8>) -> int
    decreases s.len(),
{
    if s.len() == 0 {
        0
    } else {
        hex_val(s.drop_last()) * 16 + hex_digit_val(s.last())
    }
}

pub proof fn lemma_hex_rep_digits(k: nat, n: u128)
    ensures
        hex_rep(k, n).len() == k,
        forall|j: int| 0 <= j < k ==> is_hex(#[trigger] hex_rep(k, n)[j]),
    decreases k,
{
    if k > 0 {
        lemma_hex_rep_digits((k - 1) as nat, n / 16);
    }
}

pub proof fn lemma_hex_val_of_rep(k: nat, n: u128)
    requires
        n < pow16(k),
    ensures
        hex_val(hex_rep(k, n)) == n,
    decreases k,
{
    if k == 0 {
        assert(n == 0);
    } else {
        assert(n / 16 < pow16((k - 1) as nat)) by (nonlinear_arith)
            requires
                n < 16 * pow16((k - 1) as nat),
                n >= 0,
        ;
        lemma_hex_val_of_rep((k - 1) as nat, n / 16);
        assert(hex_rep(k, n).drop_last() =~= hex_rep((k - 1) as nat, n / 16));
        assert(hex_digit_val(hex_digit((n % 16) as int)) == n % 16);
    }
}

/// `pow16(32)` covers every `u128`.
pub proof fn lemma_pow16_32()
    ensures
        pow16(32) == 0x1_0000_0000_0000_0000_0000_0000_0000_0000,
{
    reveal_with_fuel(pow16, 33);
}

/// The 32-digit lowercase hexadecimal form of an identifier.
pub open spec fn id_rep(n: u128) -> Seq<u8> {
    hex_rep(32, n)
}

pub fn hex_digit_byte(d: u8) -> (r: u8)
    requires
        d < 16,
    ensures
        r == hex_digit(d as int),
{
    if d < 10 {
        0x30 + d
    } else {
        0x57 + d
    }
}

/// Appends the 32 hexadecimal digits of an identifier.
pub fn push_hex_id(n: u128, out: &mut Vec<u8>)
    ensures
        final(out)@ == old(out)@ + id_rep(n),
{
    push_hex_k(32, n, out);
}

fn push_hex_k(k: u8, n: u128, out: &mut Vec<u8>)
    ensures
        final(out)@ == old(out)@ + hex_rep(k as nat, n),
    decreases k,
{
    if k > 0 {
        push_hex_k(k - 1, n / 16, out);
        out.push(hex_digit_byte((n % 16) as u8));
        assert(out@ =~= old(out)@ + hex_rep(k as nat, n));
    } else {
        assert(out@ =~= old(out)@ + hex_rep(0, n));
    }
}

pub fn is_hex_byte(b: u8) -> (r: bool)
    ensures
        r == is_hex(b),
{
    (0x30 <= b && b <= 0x39) || (0x61 <= b && b <= 0x66)
}

/// Reads exactly 32 hexadecimal digits as an identifier.
pub fn parse_hex_id(s: &Vec<u8>, start: usize) -> (r: Option<(u128, usize)>)
    requires
        start <= s@.len(),
    ensures
        forall|n: u128| (start + 32 <= s@.len() && s@.subrange(start as int, start + 32) == id_rep(
            n,
        )) ==> r == Some((n, (start + 32) as usize)),
        r matches Some(p) ==> p.1 == start + 32 && start < p.1 <= s@.len(),
{
    let len: usize = s.len();
    if len - start < 32 {
        proof {
            lemma_hex_rep_digits(32, 0);
        }
        return None;
    }
    let mut i: usize = 0;
    let mut acc: u128 = 0;
    while i < 32
        invariant
            0 <= i <= 32,
            start + 32 <= len,
            len == s@.len(),
            forall|j: int| start <= j < start + i ==> is_hex(#[trigger] s@[j]),
            acc == hex_val(s@.subrange(start as int, start + i)),
            acc < pow16(i as nat),
        decreases 32 - i,
    {
        let b = s[start + i];
        if !is_hex_byte(b) {
            proof {
                assert forall|n: u128| (start + 32 <= s@.len() && s@.subrange(
                    start as int,
                    start + 32,
                ) == id_rep(n)) implies false by {
                    lemma_hex_rep_digits(32, n);
                    assert(s@[start + i] == s@.subrange(start as int, start + 32)[i as int]);
                }
            }
            return None;
        }
        let d: u8 = if b <= 0x39 {
            b - 0x30
        } else {
            b - 0x57
        };
        proof {
            assert(acc * 16 + d < 16 * pow16(i as nat)) by (nonlinear_arith)
                requires
                    acc < pow16(i as nat),
                    d < 16,
                    acc >= 0,
            ;
            assert(pow16((i + 1) as nat) == 16 * pow16(i as nat));
            lemma_pow16_32();
            lemma_pow16_le((i + 1) as nat, 32);
            let pre = s@.subrange(start as int, start + i + 1);
            assert(pre.drop_last() =~= s@.subrange(start as int, start + i));
            assert(pre.last() == s@[start + i]);
            assert(hex_digit_val(b) == d);
        }
        acc = acc * 16 + (d as u128);
        i = i + 1;
    }
    proof {
        assert forall|n: u128| (start + 32 <= s@.len() && s@.subrange(start as int, start + 32)
            == id_rep(n)) implies Some((acc, (start + 32) as usize)) == Some((
            n,
            (start + 32) as usize,
        )) by {
            lemma_pow16_32();
            lemma_hex_val_of_rep(32, n);
        }
    }
    Some((acc, start + 32))
}

proof fn lemma_pow16_le(j: nat, k: nat)
    requires
        j <= k,
    ensures
        pow16(j) <= pow16(k),
    decreases k,
{
    if j < k {
        lemma_pow16_le(j, (k - 1) as nat);
        assert(pow16((k - 1) as nat) >= 1) by {
            lemma_pow16_pos((k - 1) as nat);
        }
    }
}

proof fn lemma_pow16_pos(k: nat)
    ensures
        pow16(k) >= 1,
    decreases k,
{
    if k > 0 {
        lemma_pow16_pos((k - 1) as nat);
    }
}

} // verus!
