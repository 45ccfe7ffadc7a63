//! The persistence format: one array of objects, each holding the five
//! fields of an entry, with names escaped so that every byte string
//! round-trips. Encoding is a function of the collection alone; the parser
//! is proved to give back exactly the collection that was encoded.

use crate::numbers::{
    dec_at, dec_rep, hex_digit, hex_digit_val, int_at, int_rep, is_digit, is_hex, id_rep,
    is_hex_byte, parse_dec_i64, parse_dec_u64, parse_hex_id, push_dec_i64, push_dec_u64,
    push_hex_id,
};
use crate::records::{bytes_eq, col_view, Transaction, TransactionV};
use vstd::prelude::*;

verus! {

/// The bytes that stand for one name byte inside a quoted string: the
/// quote, the backslash and the common control bytes take two-byte escapes,
/// the remaining control bytes a six-byte hexadecimal escape, and every
/// other byte stands for itself.
pub open spec fn esc_byte(b: u8) -> Seq<u8> {
    if b == 0x22 {
        seq![0x5cu8, 0x22u8]
    } else if b == 0x5c {
        seq![0x5cu8, 0x5cu8]
    } else if b == 0x0a {
        seq![0x5cu8, 0x6eu8]
    } else if b == 0x0d {
        seq![0x5cu8, 0x72u8]
    } else if b == 0x09 {
        seq![0x5cu8, 0x74u8]
    } else if b < 0x20 {
        seq![0x5cu8, 0x75u8, 0x30u8, 0x30u8, hex_digit((b / 16) as int), hex_digit((b % 16) as int)]
    } else {
        seq![b]
    }
}

/// A whole name, escaped.
pub open spec fn esc(s: Seq<u8>) -> Seq<u8>
    decreases s.len(),
{
    if s.len() == 0 {
        Seq::empty()
    } else {
        esc_byte(s[0]) + esc(s.drop_first())
    }
}

/// A whole name, escaped and closed by the ending quote.
pub open spec fn escq(s: Seq<u8>) -> Seq<u8> {
    esc(s) + seq![0x22u8]
}

pub proof fn lemma_esc_snoc(s: Seq<u8>, b: u8)
    ensures
        esc(s.push(b)) == esc(s) + esc_byte(b),
    decreases s.len(),
{
    if s.len() == 0 {
        assert(s.push(b).drop_first() =~= Seq::<u8>::empty());
        assert(s.push(b)[0] == b);
        assert(esc(s.push(b)) == esc_byte(b) + esc(s.push(b).drop_first()));
        assert(esc_byte(b) + Seq::<u8>::empty() =~= esc_byte(b));
        assert(esc(s) + esc_byte(b) =~= esc_byte(b));
    } else {
        assert(s.push(b).drop_first() =~= s.drop_first().push(b));
        lemma_esc_snoc(s.drop_first(), b);
        assert(esc(s.push(b)) == esc_byte(s[0]) + (esc(s.drop_first()) + esc_byte(b)));
        assert(esc_byte(s[0]) + (esc(s.drop_first()) + esc_byte(b)) =~= (esc_byte(s[0]) + esc(
            s.drop_first(),
        )) + esc_byte(b));
    }
}

/// Appends the escaped form of a name, without the surrounding quotes.
pub fn push_escaped(s: &Vec<u8>, out: &mut Vec<u8>)
    ensures
        final(out)@ == old(out)@ + esc(s@),
{
    let n: usize = s.len();
    let mut i: usize = 0;
    while i < n
        invariant
            0 <= i <= n,
            n == s@.len(),
            out@ == old(out)@ + esc(s@.subrange(0, i as int)),
        decreases n - i,
    {
        let b = s[i];
        if b == 0x22 {
            out.push(0x5c);
            out.push(0x22);
        } else if b == 0x5c {
            out.push(0x5c);
            out.push(0x5c);
        } else if b == 0x0a {
            out.push(0x5c);
            out.push(0x6e);
        } else if b == 0x0d {
            out.push(0x5c);
            out.push(0x72);
        } else if b == 0x09 {
            out.push(0x5c);
            out.push(0x74);
        } else if b < 0x20 {
            out.push(0x5c);
            out.push(0x75);
            out.push(0x30);
            out.push(0x30);
            let hi: u8 = b / 16;
            let lo: u8 = b % 16;
            out.push(if hi < 10 {
                0x30 + hi
            } else {
                0x57 + hi
            });
            out.push(if lo < 10 {
                0x30 + lo
            } else {
                0x57 + lo
            });
        } else {
            out.push(b);
        }
        proof {
            let pre = s@.subrange(0, i as int);
            assert(s@.subrange(0, i + 1) =~= pre.push(s@[i as int]));
            lemma_esc_snoc(pre, s@[i as int]);
            assert(out@ =~= old(out)@ + esc(s@.subrange(0, i + 1)));
        }
        i = i + 1;
    }
    assert(s@.subrange(0, n as int) =~= s@);
}

/// An escaped, quote-terminated name stands at `[start, end)` in `s`.
pub open spec fn strq_at(s: Seq<u8>, start: int, end: int, t: Seq<u8>) -> bool {
    &&& 0 <= start <= end <= s.len()
    &&& s.subrange(start, end) == escq(t)
}

/// The first byte of an escape never opens or closes a string, and tells
/// whether the byte was written escaped.
proof fn lemma_esc_byte_first(b: u8)
    ensures
        esc_byte(b).len() == 1 || esc_byte(b).len() == 2 || esc_byte(b).len() == 6,
        esc_byte(b)[0] != 0x22,
        esc_byte(b)[0] == 0x5c <==> (b == 0x22 || b == 0x5c || b == 0x0a || b == 0x0d || b == 0x09
            || b < 0x20),
        !(b == 0x22 || b == 0x5c || b == 0x0a || b == 0x0d || b == 0x09 || b < 0x20) ==> esc_byte(
            b,
        ) == seq![b],
{
}

/// In mid-parse, when the byte under the cursor is not the closing quote,
/// some unread name byte remains and its escape stands at the cursor.
proof fn str_step_facts(s: Seq<u8>, start: int, end: int, t: Seq<u8>, i: int, outv: Seq<u8>)
    requires
        strq_at(s, start, end, t),
        outv.len() <= t.len(),
        i <= end <= s.len(),
        0 <= i < s.len(),
        s.subrange(i, end) == escq(t.skip(outv.len() as int)),
        s[i] != 0x22,
    ensures
        outv.len() < t.len(),
        esc(t.skip(outv.len() as int)) == esc_byte(t.skip(outv.len() as int)[0]) + esc(
            t.skip(outv.len() as int).drop_first(),
        ),
        forall|q: int|
            0 <= q < esc_byte(t.skip(outv.len() as int)[0]).len() ==> i + q < end && s[i + q]
                == esc_byte(t.skip(outv.len() as int)[0])[q],
{
    let k = outv.len() as int;
    let rest = t.skip(k);
    if rest.len() == 0 {
        assert(escq(rest).len() == 1);
        assert(s[i] == s.subrange(i, end)[0]);
        assert(false);
    }
    lemma_esc_byte_first(rest[0]);
    let eb = esc_byte(rest[0]);
    assert(esc(rest) == eb + esc(rest.drop_first()));
    assert(escq(rest).len() == end - i);
    assert forall|q: int| 0 <= q < eb.len() implies i + q < end && s[i + q] == eb[q] by {
        assert(escq(rest).len() >= eb.len());
        assert(s[i + q] == s.subrange(i, end)[q]);
        assert(escq(rest)[q] == (esc(rest) + seq![0x22u8])[q]);
        assert(esc(rest)[q] == (eb + esc(rest.drop_first()))[q]);
    }
}

/// Under a backslash, the next bytes pin down exactly which name byte was
/// escaped.
proof fn str_escape_facts(s: Seq<u8>, start: int, end: int, t: Seq<u8>, i: int, outv: Seq<u8>)
    requires
        strq_at(s, start, end, t),
        outv.len() <= t.len(),
        i <= end <= s.len(),
        0 <= i < s.len(),
        s.subrange(i, end) == escq(t.skip(outv.len() as int)),
        s[i] == 0x5c,
    ensures
        outv.len() < t.len(),
        esc(t.skip(outv.len() as int)) == esc_byte(t.skip(outv.len() as int)[0]) + esc(
            t.skip(outv.len() as int).drop_first(),
        ),
        i + 1 < end,
        s[i + 1] == esc_byte(t.skip(outv.len() as int)[0])[1],
        s[i + 1] == 0x22 ==> t.skip(outv.len() as int)[0] == 0x22,
        s[i + 1] == 0x5c ==> t.skip(outv.len() as int)[0] == 0x5c,
        s[i + 1] == 0x6e ==> t.skip(outv.len() as int)[0] == 0x0a,
        s[i + 1] == 0x72 ==> t.skip(outv.len() as int)[0] == 0x0d,
        s[i + 1] == 0x74 ==> t.skip(outv.len() as int)[0] == 0x09,
        s[i + 1] != 0x75 ==> esc_byte(t.skip(outv.len() as int)[0]).len() == 2,
        s[i + 1] == 0x75 ==> {
            &&& t.skip(outv.len() as int)[0] < 0x20
            &&& esc_byte(t.skip(outv.len() as int)[0]).len() == 6
            &&& i + 5 < end
            &&& s[i + 2] == 0x30
            &&& s[i + 3] == 0x30
            &&& s[i + 4] == hex_digit((t.skip(outv.len() as int)[0] / 16) as int)
            &&& s[i + 5] == hex_digit((t.skip(outv.len() as int)[0] % 16) as int)
            &&& is_hex(s[i + 4])
            &&& is_hex(s[i + 5])
            &&& hex_digit_val(s[i + 4]) == t.skip(outv.len() as int)[0] / 16
            &&& hex_digit_val(s[i + 5]) == t.skip(outv.len() as int)[0] % 16
            &&& hex_digit_val(s[i + 4]) < 2
        },
        s[i + 1] == 0x22 || s[i + 1] == 0x5c || s[i + 1] == 0x6e || s[i + 1] == 0x72 || s[i + 1]
            == 0x74 || s[i + 1] == 0x75,
{
    str_step_facts(s, start, end, t, i, outv);
    let r0 = t.skip(outv.len() as int)[0];
    lemma_esc_byte_first(r0);
    assert(s[i] == esc_byte(r0)[0]);
    assert(esc_byte(r0)[0] == 0x5c);
    assert(esc_byte(r0).len() >= 2);
    assert(i + 1 < end && s[i + 1] == esc_byte(r0)[1]);
    if s[i + 1] == 0x75 {
        assert(r0 < 0x20 && r0 != 0x09 && r0 != 0x0a && r0 != 0x0d);
        assert(esc_byte(r0).len() == 6);
        assert(i + 5 < end);
        assert(s[i + 2] == esc_byte(r0)[2]);
        assert(s[i + 3] == esc_byte(r0)[3]);
        assert(s[i + 4] == esc_byte(r0)[4]);
        assert(s[i + 5] == esc_byte(r0)[5]);
        assert(esc_byte(r0)[4] == hex_digit((r0 / 16) as int));
        assert(esc_byte(r0)[5] == hex_digit((r0 % 16) as int));
    }
}

/// Peeling one escape off the unread part of the string.
proof fn step_shift(s: Seq<u8>, i: int, end: int, t: Seq<u8>, k: int, c: int)
    requires
        0 <= i,
        i + c <= end <= s.len(),
        0 <= k < t.len(),
        s.subrange(i, end) == escq(t.skip(k)),
        esc(t.skip(k)) == esc_byte(t.skip(k)[0]) + esc(t.skip(k).drop_first()),
        esc_byte(t.skip(k)[0]).len() == c,
    ensures
        s.subrange(i + c, end) == escq(t.skip(k + 1)),
{
    let rest = t.skip(k);
    assert(rest.drop_first() =~= t.skip(k + 1));
    assert(s.subrange(i, end) =~= esc_byte(rest[0]) + escq(t.skip(k + 1)));
    assert forall|q: int| 0 <= q < end - (i + c) implies #[trigger] s.subrange(i + c, end)[q]
        == escq(t.skip(k + 1))[q] by {
        assert(s.subrange(i + c, end)[q] == s.subrange(i, end)[q + c]);
        assert(s.subrange(i, end)[q + c] == (esc_byte(rest[0]) + escq(t.skip(k + 1)))[q + c]);
    }
    assert(s.subrange(i + c, end) =~= escq(t.skip(k + 1)));
}

/// Reads the body of a quoted string up to and including the closing quote,
/// undoing the escapes. Whenever the escaped form of some name `t` stands
/// at `start`, the parse returns exactly `t` and stops exactly past the
/// closing quote.
pub fn parse_string_body(s: &Vec<u8>, start: usize) -> (r: Option<(Vec<u8>, usize)>)
    requires
        start <= s@.len(),
    ensures
        forall|t: Seq<u8>, end: usize| #[trigger] strq_at(s@, start as int, end as int, t) ==> (
        r matches Some(p) && p.0@ == t && p.1 == end),
        r matches Some(p) ==> start < p.1 <= s@.len(),
{
    let len: usize = s.len();
    let mut i: usize = start;
    let mut out: Vec<u8> = Vec::new();
    proof {
        assert forall|t: Seq<u8>, end: usize| #[trigger] strq_at(
            s@,
            start as int,
            end as int,
            t,
        ) implies {
            &&& out@.len() <= t.len()
            &&& out@ == t.subrange(0, out@.len() as int)
            &&& i <= end
            &&& s@.subrange(i as int, end as int) == escq(t.skip(out@.len() as int))
        } by {
            assert(t.subrange(0, 0) =~= Seq::<u8>::empty());
            assert(t.skip(0) =~= t);
        }
    }
    loop
        invariant
            start <= i <= len,
            len == s@.len(),
            forall|t: Seq<u8>, end: usize| #[trigger] strq_at(s@, start as int, end as int, t)
                ==> {
                &&& out@.len() <= t.len()
                &&& out@ == t.subrange(0, out@.len() as int)
                &&& i <= end
                &&& s@.subrange(i as int, end as int) == escq(t.skip(out@.len() as int))
            },
        decreases len - i,
    {
        if i == len {
            proof {
                assert forall|t: Seq<u8>, end: usize| strq_at(
                    s@,
                    start as int,
                    end as int,
                    t,
                ) implies false by {
                    assert(s@.subrange(i as int, end as int) == escq(t.skip(out@.len() as int)));
                    assert(escq(t.skip(out@.len() as int)).len() >= 1);
                }
            }
            return None;
        }
        let b = s[i];
        if b == 0x22 {
            proof {
                assert forall|t: Seq<u8>, end: usize| strq_at(
                    s@,
                    start as int,
                    end as int,
                    t,
                ) implies out@ == t && i + 1 == end by {
                    let rest = t.skip(out@.len() as int);
                    assert(s@.subrange(i as int, end as int) == escq(rest));
                    if rest.len() > 0 {
                        lemma_esc_byte_first(rest[0]);
                        assert(escq(rest)[0] == esc_byte(rest[0])[0]);
                        assert(s@[i as int] == s@.subrange(i as int, end as int)[0]);
                        assert(false);
                    }
                    assert(escq(rest).len() == 1);
                    assert(end == i + 1);
                    assert(t.subrange(0, out@.len() as int) =~= t);
                }
            }
            return Some((out, i + 1));
        } else if b == 0x5c {
            if len - i < 2 {
                proof {
                    assert forall|t: Seq<u8>, end: usize| strq_at(
                        s@,
                        start as int,
                        end as int,
                        t,
                    ) implies false by {
                        str_escape_facts(s@, start as int, end as int, t, i as int, out@);
                    }
                }
                return None;
            }
            let c = s[i + 1];
            let decoded: u8;
            let consumed: usize;
            if c == 0x22 {
                decoded = 0x22;
                consumed = 2;
            } else if c == 0x5c {
                decoded = 0x5c;
                consumed = 2;
            } else if c == 0x6e {
                decoded = 0x0a;
                consumed = 2;
            } else if c == 0x72 {
                decoded = 0x0d;
                consumed = 2;
            } else if c == 0x74 {
                decoded = 0x09;
                consumed = 2;
            } else if c == 0x75 {
                if len - i < 6 {
                    proof {
                        assert forall|t: Seq<u8>, end: usize| strq_at(
                            s@,
                            start as int,
                            end as int,
                            t,
                        ) implies false by {
                            str_escape_facts(s@, start as int, end as int, t, i as int, out@);
                        }
                    }
                    return None;
                }
                let h1 = s[i + 4];
                let h2 = s[i + 5];
                if s[i + 2] != 0x30 || s[i + 3] != 0x30 || !is_hex_byte(h1) || !is_hex_byte(h2) {
                    proof {
                        assert forall|t: Seq<u8>, end: usize| strq_at(
                            s@,
                            start as int,
                            end as int,
                            t,
                        ) implies false by {
                            str_escape_facts(s@, start as int, end as int, t, i as int, out@);
                        }
                    }
                    return None;
                }
                let v1: u8 = if h1 <= 0x39 {
                    h1 - 0x30
                } else {
                    h1 - 0x57
                };
                let v2: u8 = if h2 <= 0x39 {
                    h2 - 0x30
                } else {
                    h2 - 0x57
                };
                if v1 >= 2 {
                    proof {
                        assert forall|t: Seq<u8>, end: usize| strq_at(
                            s@,
                            start as int,
                            end as int,
                            t,
                        ) implies false by {
                            str_escape_facts(s@, start as int, end as int, t, i as int, out@);
                            assert(hex_digit_val(s@[i + 4]) == v1);
                        }
                    }
                    return None;
                }
                decoded = v1 * 16 + v2;
                consumed = 6;
                proof {
                    assert(hex_digit_val(s@[i + 4]) == v1);
                    assert(hex_digit_val(s@[i + 5]) == v2);
                    assert(decoded as int == hex_digit_val(s@[i + 4]) * 16 + hex_digit_val(
                        s@[i + 5],
                    ));
                }
            } else {
                proof {
                    assert forall|t: Seq<u8>, end: usize| strq_at(
                        s@,
                        start as int,
                        end as int,
                        t,
                    ) implies false by {
                        str_escape_facts(s@, start as int, end as int, t, i as int, out@);
                    }
                }
                return None;
            }
            proof {
                assert forall|t: Seq<u8>, end: usize| #[trigger] strq_at(
                    s@,
                    start as int,
                    end as int,
                    t,
                ) implies {
                    &&& out@.len() as int + 1 <= t.len()
                    &&& out@.push(decoded) == t.subrange(0, out@.len() as int + 1)
                    &&& i + consumed <= end
                    &&& s@.subrange(i + consumed, end as int) == escq(
                        t.skip(out@.len() as int + 1),
                    )
                } by {
                    let k = out@.len() as int;
                    let rest = t.skip(k);
                    str_escape_facts(s@, start as int, end as int, t, i as int, out@);
                    if c == 0x75 {
                        assert(hex_digit_val(s@[i + 4]) == (rest[0] / 16) as int);
                        assert(hex_digit_val(s@[i + 5]) == (rest[0] % 16) as int);
                        assert(rest[0] == (rest[0] / 16) * 16 + rest[0] % 16) by (nonlinear_arith);
                        assert(decoded == rest[0]);
                        assert(esc_byte(rest[0]).len() == consumed);
                    } else {
                        assert(decoded == rest[0]);
                        assert(esc_byte(rest[0]).len() == consumed);
                    }
                    step_shift(s@, i as int, end as int, t, k, consumed as int);
                    assert(rest[0] == t[k]);
                    assert(out@.push(decoded) =~= t.subrange(0, k + 1));
                }
            }
            out.push(decoded);
            i = i + consumed;
        } else {
            proof {
                assert forall|t: Seq<u8>, end: usize| #[trigger] strq_at(
                    s@,
                    start as int,
                    end as int,
                    t,
                ) implies {
                    &&& out@.len() as int + 1 <= t.len()
                    &&& out@.push(b) == t.subrange(0, out@.len() as int + 1)
                    &&& i + 1 <= end
                    &&& s@.subrange(i + 1, end as int) == escq(t.skip(out@.len() as int + 1))
                } by {
                    let k = out@.len() as int;
                    let rest = t.skip(k);
                    str_step_facts(s@, start as int, end as int, t, i as int, out@);
                    lemma_esc_byte_first(rest[0]);
                    assert(s@[i as int] == esc_byte(rest[0])[0]);
                    assert(esc_byte(rest[0])[0] != 0x5c && esc_byte(rest[0])[0] != 0x22);
                    assert(esc_byte(rest[0]) == seq![rest[0]]);
                    assert(b == rest[0]);
                    step_shift(s@, i as int, end as int, t, k, 1);
                    assert(rest[0] == t[k]);
                    assert(out@.push(b) =~= t.subrange(0, k + 1));
                }
            }
            out.push(b);
            i = i + 1;
        }
    }
}


/// The opening of an object up to the identifier's value.
pub open spec fn lit_id() -> Seq<u8> {
    seq![0x7bu8, 0x22u8, 0x69u8, 0x64u8, 0x22u8, 0x3au8, 0x22u8]
}

/// From the identifier's closing quote to the user name's opening quote.
pub open spec fn lit_user() -> Seq<u8> {
    seq![0x22u8, 0x2cu8, 0x22u8, 0x75u8, 0x73u8, 0x65u8, 0x72u8, 0x22u8, 0x3au8, 0x22u8]
}

/// From after the user name to the item name's opening quote.
pub open spec fn lit_item() -> Seq<u8> {
    seq![0x2cu8, 0x22u8, 0x69u8, 0x74u8, 0x65u8, 0x6du8, 0x22u8, 0x3au8, 0x22u8]
}

/// From after the item name to the amount's first digit.
pub open spec fn lit_amount() -> Seq<u8> {
    seq![0x2cu8, 0x22u8, 0x61u8, 0x6du8, 0x6fu8, 0x75u8, 0x6eu8, 0x74u8, 0x22u8, 0x3au8]
}

/// From after the amount to the timestamp's first digit.
pub open spec fn lit_timestamp() -> Seq<u8> {
    seq![
        0x2cu8,
        0x22u8,
        0x74u8,
        0x69u8,
        0x6du8,
        0x65u8,
        0x73u8,
        0x74u8,
        0x61u8,
        0x6du8,
        0x70u8,
        0x22u8,
        0x3au8,
    ]
}

/// The closing brace of an object.
pub open spec fn lit_close() -> Seq<u8> {
    seq![0x7du8]
}

/// The encoded form of one entry: an object with the five fields in fixed
/// order and without inner whitespace.
pub open spec fn enc_rec(rv: TransactionV) -> Seq<u8> {
    lit_id() + (id_rep(rv.id) + (lit_user() + (escq(rv.user) + (lit_item() + (escq(rv.item) + (
    lit_amount() + (int_rep(rv.amount) + (lit_timestamp() + (dec_rep(rv.timestamp)
        + lit_close())))))))))
}

/// The encoded entries, separated by commas.
pub open spec fn enc_items(m: Seq<TransactionV>) -> Seq<u8>
    decreases m.len(),
{
    if m.len() == 0 {
        Seq::empty()
    } else if m.len() == 1 {
        enc_rec(m[0])
    } else {
        enc_rec(m[0]) + (seq![0x2cu8] + enc_items(m.drop_first()))
    }
}

/// The encoded collection: the entries inside one array.
pub open spec fn enc_col(m: Seq<TransactionV>) -> Seq<u8> {
    seq![0x5bu8] + (enc_items(m) + seq![0x5du8])
}

/// When `a + b` stands at `[start, end)`, `a` stands first and `b` after it.
proof fn lemma_split_at(s: Seq<u8>, start: int, end: int, a: Seq<u8>, b: Seq<u8>)
    requires
        0 <= start <= end <= s.len(),
        s.subrange(start, end) == a + b,
    ensures
        start + a.len() <= end,
        s.subrange(start, start + a.len() as int) == a,
        s.subrange(start + a.len() as int, end) == b,
{
    let al = a.len() as int;
    assert((a + b).len() == end - start);
    assert forall|q: int| 0 <= q < al implies #[trigger] s.subrange(start, start + al)[q]
        == a[q] by {
        assert(s.subrange(start, start + al)[q] == s[start + q]);
        assert(s[start + q] == s.subrange(start, end)[q]);
        assert((a + b)[q] == a[q]);
    }
    assert(s.subrange(start, start + al) =~= a);
    assert forall|q: int| 0 <= q < end - start - al implies #[trigger] s.subrange(start + al, end)[q]
        == b[q] by {
        assert(s.subrange(start + al, end)[q] == s[start + al + q]);
        assert(s[start + al + q] == s.subrange(start, end)[al + q]);
        assert((a + b)[al + q] == b[q]);
    }
    assert(s.subrange(start + al, end) =~= b);
}

/// The end of the escaped user name within an entry encoded at `start`.
pub open spec fn user_end(start: int, rv: TransactionV) -> int {
    start + 49 + escq(rv.user).len()
}

/// The end of the escaped item name within an entry encoded at `start`.
pub open spec fn item_end(start: int, rv: TransactionV) -> int {
    user_end(start, rv) + 9 + escq(rv.item).len()
}

/// The end of the amount's digits within an entry encoded at `start`.
pub open spec fn amt_end(start: int, rv: TransactionV) -> int {
    item_end(start, rv) + 10 + int_rep(rv.amount).len()
}

/// The end of the timestamp's digits within an entry encoded at `start`.
pub open spec fn ts_end(start: int, rv: TransactionV) -> int {
    amt_end(start, rv) + 13 + dec_rep(rv.timestamp).len()
}

/// An encoded entry stands at `[start, end)` in `s`.
pub open spec fn rec_at(s: Seq<u8>, start: int, end: int, rv: TransactionV) -> bool {
    &&& 0 <= start <= end <= s.len()
    &&& s.subrange(start, end) == enc_rec(rv)
}

/// Where an encoded entry stands, each of its pieces stands at its own
/// offset, each number delimited by the byte that follows it.
proof fn lemma_rec_decompose(s: Seq<u8>, start: int, end: int, rv: TransactionV)
    requires
        rec_at(s, start, end, rv),
    ensures
        s.subrange(start, start + 7) == lit_id(),
        start + 39 <= end,
        s.subrange(start + 7, start + 39) == id_rep(rv.id),
        s.subrange(start + 39, start + 49) == lit_user(),
        strq_at(s, start + 49, user_end(start, rv), rv.user),
        s.subrange(user_end(start, rv), user_end(start, rv) + 9) == lit_item(),
        strq_at(s, user_end(start, rv) + 9, item_end(start, rv), rv.item),
        s.subrange(item_end(start, rv), item_end(start, rv) + 10) == lit_amount(),
        int_at(s, item_end(start, rv) + 10, amt_end(start, rv), rv.amount),
        s.subrange(amt_end(start, rv), amt_end(start, rv) + 13) == lit_timestamp(),
        dec_at(s, amt_end(start, rv) + 13, ts_end(start, rv), rv.timestamp),
        end == ts_end(start, rv) + 1,
        s[ts_end(start, rv)] == 0x7d,
{
    crate::numbers::lemma_hex_rep_digits(32, rv.id);
    let r1 = id_rep(rv.id) + (lit_user() + (escq(rv.user) + (lit_item() + (escq(rv.item) + (
    lit_amount() + (int_rep(rv.amount) + (lit_timestamp() + (dec_rep(rv.timestamp)
        + lit_close()))))))));
    lemma_split_at(s, start, end, lit_id(), r1);
    let r2 = lit_user() + (escq(rv.user) + (lit_item() + (escq(rv.item) + (lit_amount() + (
    int_rep(rv.amount) + (lit_timestamp() + (dec_rep(rv.timestamp) + lit_close())))))));
    lemma_split_at(s, start + 7, end, id_rep(rv.id), r2);
    let r3 = escq(rv.user) + (lit_item() + (escq(rv.item) + (lit_amount() + (int_rep(rv.amount) + (
    lit_timestamp() + (dec_rep(rv.timestamp) + lit_close()))))));
    lemma_split_at(s, start + 39, end, lit_user(), r3);
    let r4 = lit_item() + (escq(rv.item) + (lit_amount() + (int_rep(rv.amount) + (lit_timestamp()
        + (dec_rep(rv.timestamp) + lit_close())))));
    lemma_split_at(s, start + 49, end, escq(rv.user), r4);
    let p_ue = user_end(start, rv);
    let r5 = escq(rv.item) + (lit_amount() + (int_rep(rv.amount) + (lit_timestamp() + (dec_rep(
        rv.timestamp,
    ) + lit_close()))));
    lemma_split_at(s, p_ue, end, lit_item(), r5);
    let r6 = lit_amount() + (int_rep(rv.amount) + (lit_timestamp() + (dec_rep(rv.timestamp)
        + lit_close())));
    lemma_split_at(s, p_ue + 9, end, escq(rv.item), r6);
    let p_ie = item_end(start, rv);
    let r7 = int_rep(rv.amount) + (lit_timestamp() + (dec_rep(rv.timestamp) + lit_close()));
    lemma_split_at(s, p_ie, end, lit_amount(), r7);
    let r8 = lit_timestamp() + (dec_rep(rv.timestamp) + lit_close());
    lemma_split_at(s, p_ie + 10, end, int_rep(rv.amount), r8);
    let p_ae = amt_end(start, rv);
    let r9 = dec_rep(rv.timestamp) + lit_close();
    lemma_split_at(s, p_ae, end, lit_timestamp(), r9);
    lemma_split_at(s, p_ae + 13, end, dec_rep(rv.timestamp), lit_close());
    let p_te = ts_end(start, rv);
    assert(s[p_ae] == s.subrange(p_ae, p_ae + 13)[0]);
    assert(s[p_te] == s.subrange(p_te, end)[0]);
    assert(!is_digit(0x2cu8));
    assert(!is_digit(0x7du8));
}

/// Checks for the opening of an object up to the identifier's value.
fn expect_lit_id(s: &Vec<u8>, i: usize) -> (r: Option<usize>)
    requires
        i <= s@.len(),
    ensures
        (i + 7 <= s@.len() && s@.subrange(i as int, i + 7) == lit_id()) ==> r == Some(
            (i + 7) as usize,
        ),
        r matches Some(j) ==> j == i + 7 && i + 7 <= s@.len(),
{
    if s.len() - i < 7 {
        return None;
    }
    proof {
        if s@.subrange(i as int, i + 7) == lit_id() {
            assert forall|q: int| 0 <= q < 7 implies s@[i + q] == #[trigger] lit_id()[q] by {
                assert(s@[i + q] == s@.subrange(i as int, i + 7)[q]);
            }
        }
    }
    if s[i] == 0x7b && s[i + 1] == 0x22 && s[i + 2] == 0x69 && s[i + 3] == 0x64 && s[i + 4] == 0x22
        && s[i + 5] == 0x3a && s[i + 6] == 0x22 {
        Some(i + 7)
    } else {
        None
    }
}

/// Checks for the bytes between the identifier and the user name.
fn expect_lit_user(s: &Vec<u8>, i: usize) -> (r: Option<usize>)
    requires
        i <= s@.len(),
    ensures
        (i + 10 <= s@.len() && s@.subrange(i as int, i + 10) == lit_user()) ==> r == Some(
            (i + 10) as usize,
        ),
        r matches Some(j) ==> j == i + 10 && i + 10 <= s@.len(),
{
    if s.len() - i < 10 {
        return None;
    }
    proof {
        if s@.subrange(i as int, i + 10) == lit_user() {
            assert forall|q: int| 0 <= q < 10 implies s@[i + q] == #[trigger] lit_user()[q] by {
                assert(s@[i + q] == s@.subrange(i as int, i + 10)[q]);
            }
        }
    }
    if s[i] == 0x22 && s[i + 1] == 0x2c && s[i + 2] == 0x22 && s[i + 3] == 0x75 && s[i + 4] == 0x73
        && s[i + 5] == 0x65 && s[i + 6] == 0x72 && s[i + 7] == 0x22 && s[i + 8] == 0x3a && s[i + 9]
        == 0x22 {
        Some(i + 10)
    } else {
        None
    }
}

/// Checks for the bytes between the user name and the item name.
fn expect_lit_item(s: &Vec<u8>, i: usize) -> (r: Option<usize>)
    requires
        i <= s@.len(),
    ensures
        (i + 9 <= s@.len() && s@.subrange(i as int, i + 9) == lit_item()) ==> r == Some(
            (i + 9) as usize,
        ),
        r matches Some(j) ==> j == i + 9 && i + 9 <= s@.len(),
{
    if s.len() - i < 9 {
        return None;
    }
    proof {
        if s@.subrange(i as int, i + 9) == lit_item() {
            assert forall|q: int| 0 <= q < 9 implies s@[i + q] == #[trigger] lit_item()[q] by {
                assert(s@[i + q] == s@.subrange(i as int, i + 9)[q]);
            }
        }
    }
    if s[i] == 0x2c && s[i + 1] == 0x22 && s[i + 2] == 0x69 && s[i + 3] == 0x74 && s[i + 4] == 0x65
        && s[i + 5] == 0x6d && s[i + 6] == 0x22 && s[i + 7] == 0x3a && s[i + 8] == 0x22 {
        Some(i + 9)
    } else {
        None
    }
}

/// Checks for the bytes between the item name and the amount.
fn expect_lit_amount(s: &Vec<u8>, i: usize) -> (r: Option<usize>)
    requires
        i <= s@.len(),
    ensures
        (i + 10 <= s@.len() && s@.subrange(i as int, i + 10) == lit_amount()) ==> r == Some(
            (i + 10) as usize,
        ),
        r matches Some(j) ==> j == i + 10 && i + 10 <= s@.len(),
{
    if s.len() - i < 10 {
        return None;
    }
    proof {
        if s@.subrange(i as int, i + 10) == lit_amount() {
            assert forall|q: int| 0 <= q < 10 implies s@[i + q] == #[trigger] lit_amount()[q] by {
                assert(s@[i + q] == s@.subrange(i as int, i + 10)[q]);
            }
        }
    }
    if s[i] == 0x2c && s[i + 1] == 0x22 && s[i + 2] == 0x61 && s[i + 3] == 0x6d && s[i + 4] == 0x6f
        && s[i + 5] == 0x75 && s[i + 6] == 0x6e && s[i + 7] == 0x74 && s[i + 8] == 0x22 && s[i + 9]
        == 0x3a {
        Some(i + 10)
    } else {
        None
    }
}

/// Checks for the bytes between the amount and the timestamp.
fn expect_lit_timestamp(s: &Vec<u8>, i: usize) -> (r: Option<usize>)
    requires
        i <= s@.len(),
    ensures
        (i + 13 <= s@.len() && s@.subrange(i as int, i + 13) == lit_timestamp()) ==> r == Some(
            (i + 13) as usize,
        ),
        r matches Some(j) ==> j == i + 13 && i + 13 <= s@.len(),
{
    if s.len() - i < 13 {
        return None;
    }
    proof {
        if s@.subrange(i as int, i + 13) == lit_timestamp() {
            assert forall|q: int| 0 <= q < 13 implies s@[i + q]
                == #[trigger] lit_timestamp()[q] by {
                assert(s@[i + q] == s@.subrange(i as int, i + 13)[q]);
            }
        }
    }
    if s[i] == 0x2c && s[i + 1] == 0x22 && s[i + 2] == 0x74 && s[i + 3] == 0x69 && s[i + 4] == 0x6d
        && s[i + 5] == 0x65 && s[i + 6] == 0x73 && s[i + 7] == 0x74 && s[i + 8] == 0x61 && s[i + 9]
        == 0x6d && s[i + 10] == 0x70 && s[i + 11] == 0x22 && s[i + 12] == 0x3a {
        Some(i + 13)
    } else {
        None
    }
}

/// Reads one encoded entry. Whenever an encoding of some entry `rv` stands
/// at `start`, the parse returns exactly that entry and stops exactly past
/// its closing brace.
#[verifier::rlimit(80)]
pub fn parse_rec(s: &Vec<u8>, start: usize) -> (r: Option<(Transaction, usize)>)
    requires
        start <= s@.len(),
    ensures
        forall|rv: TransactionV, end: usize| #[trigger] rec_at(s@, start as int, end as int, rv)
            ==> (r matches Some(p) && p.0@ == rv && p.1 == end),
        r matches Some(p) ==> start < p.1 <= s@.len(),
{
    let o1 = expect_lit_id(s, start);
    let j1: usize;
    match o1 {
        Some(j) => {
            j1 = j;
        },
        None => {
            proof {
                assert forall|rv: TransactionV, end: usize| rec_at(
                    s@,
                    start as int,
                    end as int,
                    rv,
                ) implies false by {
                    lemma_rec_decompose(s@, start as int, end as int, rv);
                }
            }
            return None;
        },
    }
    let o2 = parse_hex_id(s, j1);
    let idv: u128;
    let j2: usize;
    match o2 {
        Some((v, j)) => {
            idv = v;
            j2 = j;
        },
        None => {
            proof {
                assert forall|rv: TransactionV, end: usize| rec_at(
                    s@,
                    start as int,
                    end as int,
                    rv,
                ) implies false by {
                    lemma_rec_decompose(s@, start as int, end as int, rv);
                }
            }
            return None;
        },
    }
    let o3 = expect_lit_user(s, j2);
    let j3: usize;
    match o3 {
        Some(j) => {
            j3 = j;
        },
        None => {
            proof {
                assert forall|rv: TransactionV, end: usize| rec_at(
                    s@,
                    start as int,
                    end as int,
                    rv,
                ) implies false by {
                    lemma_rec_decompose(s@, start as int, end as int, rv);
                }
            }
            return None;
        },
    }
    let o4 = parse_string_body(s, j3);
    let user: Vec<u8>;
    let j4: usize;
    match o4 {
        Some((v, j)) => {
            user = v;
            j4 = j;
        },
        None => {
            proof {
                assert forall|rv: TransactionV, end: usize| rec_at(
                    s@,
                    start as int,
                    end as int,
                    rv,
                ) implies false by {
                    lemma_rec_decompose(s@, start as int, end as int, rv);
                    assert(strq_at(s@, start + 49, user_end(start as int, rv), rv.user));
                }
            }
            return None;
        },
    }
    let o5 = expect_lit_item(s, j4);
    let j5: usize;
    match o5 {
        Some(j) => {
            j5 = j;
        },
        None => {
            proof {
                assert forall|rv: TransactionV, end: usize| rec_at(
                    s@,
                    start as int,
                    end as int,
                    rv,
                ) implies false by {
                    lemma_rec_decompose(s@, start as int, end as int, rv);
                    assert(strq_at(s@, start + 49, user_end(start as int, rv), rv.user));
                }
            }
            return None;
        },
    }
    let o6 = parse_string_body(s, j5);
    let item: Vec<u8>;
    let j6: usize;
    match o6 {
        Some((v, j)) => {
            item = v;
            j6 = j;
        },
        None => {
            proof {
                assert forall|rv: TransactionV, end: usize| rec_at(
                    s@,
                    start as int,
                    end as int,
                    rv,
                ) implies false by {
                    lemma_rec_decompose(s@, start as int, end as int, rv);
                    assert(strq_at(s@, start + 49, user_end(start as int, rv), rv.user));
                    assert(strq_at(
                        s@,
                        user_end(start as int, rv) + 9,
                        item_end(start as int, rv),
                        rv.item,
                    ));
                }
            }
            return None;
        },
    }
    let o7 = expect_lit_amount(s, j6);
    let j7: usize;
    match o7 {
        Some(j) => {
            j7 = j;
        },
        None => {
            proof {
                assert forall|rv: TransactionV, end: usize| rec_at(
                    s@,
                    start as int,
                    end as int,
                    rv,
                ) implies false by {
                    lemma_rec_decompose(s@, start as int, end as int, rv);
                    assert(strq_at(s@, start + 49, user_end(start as int, rv), rv.user));
                    assert(strq_at(
                        s@,
                        user_end(start as int, rv) + 9,
                        item_end(start as int, rv),
                        rv.item,
                    ));
                }
            }
            return None;
        },
    }
    let o8 = parse_dec_i64(s, j7);
    let amount: i64;
    let j8: usize;
    match o8 {
        Some((v, j)) => {
            amount = v;
            j8 = j;
        },
        None => {
            proof {
                assert forall|rv: TransactionV, end: usize| rec_at(
                    s@,
                    start as int,
                    end as int,
                    rv,
                ) implies false by {
                    lemma_rec_decompose(s@, start as int, end as int, rv);
                    assert(strq_at(s@, start + 49, user_end(start as int, rv), rv.user));
                    assert(strq_at(
                        s@,
                        user_end(start as int, rv) + 9,
                        item_end(start as int, rv),
                        rv.item,
                    ));
                    assert(int_at(
                        s@,
                        item_end(start as int, rv) + 10,
                        amt_end(start as int, rv),
                        rv.amount,
                    ));
                }
            }
            return None;
        },
    }
    let o9 = expect_lit_timestamp(s, j8);
    let j9: usize;
    match o9 {
        Some(j) => {
            j9 = j;
        },
        None => {
            proof {
                assert forall|rv: TransactionV, end: usize| rec_at(
                    s@,
                    start as int,
                    end as int,
                    rv,
                ) implies false by {
                    lemma_rec_decompose(s@, start as int, end as int, rv);
                    assert(strq_at(s@, start + 49, user_end(start as int, rv), rv.user));
                    assert(strq_at(
                        s@,
                        user_end(start as int, rv) + 9,
                        item_end(start as int, rv),
                        rv.item,
                    ));
                    assert(int_at(
                        s@,
                        item_end(start as int, rv) + 10,
                        amt_end(start as int, rv),
                        rv.amount,
                    ));
                }
            }
            return None;
        },
    }
    let o10 = parse_dec_u64(s, j9);
    let ts: u64;
    let j10: usize;
    match o10 {
        Some((v, j)) => {
            ts = v;
            j10 = j;
        },
        None => {
            proof {
                assert forall|rv: TransactionV, end: usize| rec_at(
                    s@,
                    start as int,
                    end as int,
                    rv,
                ) implies false by {
                    lemma_rec_decompose(s@, start as int, end as int, rv);
                    assert(strq_at(s@, start + 49, user_end(start as int, rv), rv.user));
                    assert(strq_at(
                        s@,
                        user_end(start as int, rv) + 9,
                        item_end(start as int, rv),
                        rv.item,
                    ));
                    assert(int_at(
                        s@,
                        item_end(start as int, rv) + 10,
                        amt_end(start as int, rv),
                        rv.amount,
                    ));
                    assert(dec_at(
                        s@,
                        amt_end(start as int, rv) + 13,
                        ts_end(start as int, rv),
                        rv.timestamp,
                    ));
                }
            }
            return None;
        },
    }
    if j10 >= s.len() || s[j10] != 0x7d {
        proof {
            assert forall|rv: TransactionV, end: usize| rec_at(
                s@,
                start as int,
                end as int,
                rv,
            ) implies false by {
                lemma_rec_decompose(s@, start as int, end as int, rv);
                assert(strq_at(s@, start + 49, user_end(start as int, rv), rv.user));
                assert(strq_at(
                    s@,
                    user_end(start as int, rv) + 9,
                    item_end(start as int, rv),
                    rv.item,
                ));
                assert(int_at(
                    s@,
                    item_end(start as int, rv) + 10,
                    amt_end(start as int, rv),
                    rv.amount,
                ));
                assert(dec_at(
                    s@,
                    amt_end(start as int, rv) + 13,
                    ts_end(start as int, rv),
                    rv.timestamp,
                ));
                assert(j10 == ts_end(start as int, rv));
            }
        }
        return None;
    }
    let t = Transaction { id: idv, user, item, amount, timestamp: ts };
    proof {
        assert forall|rv: TransactionV, end: usize| rec_at(
            s@,
            start as int,
            end as int,
            rv,
        ) implies t@ == rv && j10 + 1 == end by {
            lemma_rec_decompose(s@, start as int, end as int, rv);
            assert(strq_at(s@, start + 49, user_end(start as int, rv), rv.user));
            assert(strq_at(
                s@,
                user_end(start as int, rv) + 9,
                item_end(start as int, rv),
                rv.item,
            ));
            assert(int_at(
                s@,
                item_end(start as int, rv) + 10,
                amt_end(start as int, rv),
                rv.amount,
            ));
            assert(dec_at(
                s@,
                amt_end(start as int, rv) + 13,
                ts_end(start as int, rv),
                rv.timestamp,
            ));
            assert(t@ =~= rv);
        }
    }
    Some((t, j10 + 1))
}


/// Appends the encoded form of one entry.
#[verifier::rlimit(80)]
pub fn push_rec(t: &Transaction, out: &mut Vec<u8>)
    ensures
        final(out)@ == old(out)@ + enc_rec(t@),
{
    out.push(0x7b);
    out.push(0x22);
    out.push(0x69);
    out.push(0x64);
    out.push(0x22);
    out.push(0x3a);
    out.push(0x22);
    push_hex_id(t.id, out);
    out.push(0x22);
    out.push(0x2c);
    out.push(0x22);
    out.push(0x75);
    out.push(0x73);
    out.push(0x65);
    out.push(0x72);
    out.push(0x22);
    out.push(0x3a);
    out.push(0x22);
    push_escaped(&t.user, out);
    out.push(0x22);
    out.push(0x2c);
    out.push(0x22);
    out.push(0x69);
    out.push(0x74);
    out.push(0x65);
    out.push(0x6d);
    out.push(0x22);
    out.push(0x3a);
    out.push(0x22);
    push_escaped(&t.item, out);
    out.push(0x22);
    out.push(0x2c);
    out.push(0x22);
    out.push(0x61);
    out.push(0x6d);
    out.push(0x6f);
    out.push(0x75);
    out.push(0x6e);
    out.push(0x74);
    out.push(0x22);
    out.push(0x3a);
    push_dec_i64(t.amount, out);
    out.push(0x2c);
    out.push(0x22);
    out.push(0x74);
    out.push(0x69);
    out.push(0x6d);
    out.push(0x65);
    out.push(0x73);
    out.push(0x74);
    out.push(0x61);
    out.push(0x6d);
    out.push(0x70);
    out.push(0x22);
    out.push(0x3a);
    push_dec_u64(t.timestamp, out);
    out.push(0x7d);
    assert(out@ =~= old(out)@ + enc_rec(t@));
}

/// Appending one entry to the encoded items adds a separator exactly when
/// items already stand there.
pub proof fn lemma_enc_items_snoc(m: Seq<TransactionV>, rv: TransactionV)
    ensures
        m.len() == 0 ==> enc_items(m.push(rv)) == enc_rec(rv),
        m.len() > 0 ==> enc_items(m.push(rv)) == enc_items(m) + (seq![0x2cu8] + enc_rec(rv)),
    decreases m.len(),
{
    let mp = m.push(rv);
    if m.len() == 0 {
        assert(mp.len() == 1);
        assert(mp[0] == rv);
    } else {
        assert(mp.drop_first() =~= m.drop_first().push(rv));
        assert(mp[0] == m[0]);
        lemma_enc_items_snoc(m.drop_first(), rv);
        if m.len() == 1 {
            assert(enc_items(mp) == enc_rec(m[0]) + (seq![0x2cu8] + enc_rec(rv)));
            assert(enc_items(m) == enc_rec(m[0]));
        } else {
            assert(enc_items(mp) == enc_rec(m[0]) + (seq![0x2cu8] + (enc_items(m.drop_first()) + (
            seq![0x2cu8] + enc_rec(rv)))));
            assert(enc_rec(m[0]) + (seq![0x2cu8] + (enc_items(m.drop_first()) + (seq![0x2cu8]
                + enc_rec(rv)))) =~= (enc_rec(m[0]) + (seq![0x2cu8] + enc_items(m.drop_first())))
                + (seq![0x2cu8] + enc_rec(rv)));
        }
    }
}

/// Encodes the whole collection.
pub fn encode(col: &Vec<Transaction>) -> (out: Vec<u8>)
    ensures
        out@ == enc_col(col_view(col@)),
{
    let mut out: Vec<u8> = Vec::new();
    out.push(0x5b);
    let n: usize = col.len();
    let mut i: usize = 0;
    proof {
        assert(col@.subrange(0, 0) =~= Seq::<Transaction>::empty());
        assert(col_view(col@.subrange(0, 0)) =~= Seq::<TransactionV>::empty());
        assert(out@ =~= seq![0x5bu8] + enc_items(col_view(col@.subrange(0, 0))));
    }
    while i < n
        invariant
            0 <= i <= n,
            n == col@.len(),
            out@ == seq![0x5bu8] + enc_items(col_view(col@.subrange(0, i as int))),
        decreases n - i,
    {
        if i > 0 {
            out.push(0x2c);
        }
        let t = &col[i];
        push_rec(t, &mut out);
        proof {
            let prev = col_view(col@.subrange(0, i as int));
            let cur = col_view(col@.subrange(0, i + 1));
            assert(col@.subrange(0, i + 1) =~= col@.subrange(0, i as int).push(col@[i as int]));
            assert(cur =~= prev.push(col@[i as int]@));
            lemma_enc_items_snoc(prev, col@[i as int]@);
            assert(prev.len() == i);
            if i == 0 {
                assert(out@ =~= seq![0x5bu8] + enc_items(cur));
            } else {
                assert(out@ =~= seq![0x5bu8] + enc_items(cur));
            }
        }
        i = i + 1;
    }
    out.push(0x5d);
    proof {
        assert(col@.subrange(0, n as int) =~= col@);
        assert(out@ =~= enc_col(col_view(col@)));
    }
    out
}

/// Comma-separated encoded entries, closed by the array's end, stand at
/// `[start, end)` in `s`.
pub open spec fn items_at(s: Seq<u8>, start: int, end: int, m: Seq<TransactionV>) -> bool {
    &&& 0 <= start <= end <= s.len()
    &&& s.subrange(start, end) == enc_items(m) + seq![0x5du8]
}

/// An encoded entry always opens with a brace.
proof fn lemma_enc_rec_first(rv: TransactionV)
    ensures
        enc_rec(rv).len() > 40,
        enc_rec(rv)[0] == 0x7b,
{
    assert(enc_rec(rv)[0] == lit_id()[0]);
    crate::numbers::lemma_dec_rep_digits(rv.timestamp);
}

/// Reads the entries of an encoded collection up to and including the
/// closing bracket.
#[verifier::rlimit(80)]
pub fn parse_items(s: &Vec<u8>, start: usize) -> (r: Option<(Vec<Transaction>, usize)>)
    requires
        start <= s@.len(),
    ensures
        forall|m: Seq<TransactionV>, end: usize| #[trigger] items_at(
            s@,
            start as int,
            end as int,
            m,
        ) ==> (r matches Some(p) && col_view(p.0@) == m && p.1 == end),
        r matches Some(p) ==> start < p.1 <= s@.len(),
{
    let len: usize = s.len();
    let mut i: usize = start;
    let mut out: Vec<Transaction> = Vec::new();
    proof {
        assert forall|m: Seq<TransactionV>, end: usize| #[trigger] items_at(
            s@,
            start as int,
            end as int,
            m,
        ) implies {
            &&& out@.len() <= m.len()
            &&& col_view(out@) == m.subrange(0, out@.len() as int)
            &&& i <= end
            &&& s@.subrange(i as int, end as int) == enc_items(m.skip(out@.len() as int))
                + seq![0x5du8]
        } by {
            assert(col_view(out@) =~= m.subrange(0, 0));
            assert(m.skip(0) =~= m);
        }
    }
    loop
        invariant
            start <= i <= len,
            len == s@.len(),
            forall|m: Seq<TransactionV>, end: usize| #[trigger] items_at(
                s@,
                start as int,
                end as int,
                m,
            ) ==> {
                &&& out@.len() <= m.len()
                &&& col_view(out@) == m.subrange(0, out@.len() as int)
                &&& i <= end
                &&& s@.subrange(i as int, end as int) == enc_items(m.skip(out@.len() as int))
                    + seq![0x5du8]
            },
        decreases len - i,
    {
        if i == len {
            proof {
                assert forall|m: Seq<TransactionV>, end: usize| items_at(
                    s@,
                    start as int,
                    end as int,
                    m,
                ) implies false by {
                    assert((enc_items(m.skip(out@.len() as int)) + seq![0x5du8]).len() >= 1);
                }
            }
            return None;
        }
        if s[i] == 0x5d {
            proof {
                assert forall|m: Seq<TransactionV>, end: usize| items_at(
                    s@,
                    start as int,
                    end as int,
                    m,
                ) implies col_view(out@) == m && i + 1 == end by {
                    let k = out@.len() as int;
                    let rest = m.skip(k);
                    let tail = enc_items(rest) + seq![0x5du8];
                    assert(s@[i as int] == s@.subrange(i as int, end as int)[0]);
                    if rest.len() > 0 {
                        lemma_enc_rec_first(rest[0]);
                        if rest.len() == 1 {
                            assert(tail[0] == enc_rec(rest[0])[0]);
                        } else {
                            assert(enc_items(rest)[0] == enc_rec(rest[0])[0]);
                            assert(tail[0] == enc_rec(rest[0])[0]);
                        }
                        assert(false);
                    }
                    assert(tail.len() == 1);
                    assert(end == i + 1);
                    assert(m.subrange(0, k) =~= m);
                }
            }
            return Some((out, i + 1));
        }
        let o = parse_rec(s, i);
        match o {
            Some((t, j)) => {
                proof {
                    assert forall|m: Seq<TransactionV>, end: usize| items_at(
                        s@,
                        start as int,
                        end as int,
                        m,
                    ) implies {
                        &&& out@.len() < m.len()
                        &&& t@ == m[out@.len() as int]
                        &&& j == i + enc_rec(m.skip(out@.len() as int)[0]).len()
                        &&& j <= end
                        &&& s@.subrange(j as int, end as int) == (if m.skip(out@.len() as int).len()
                            == 1 {
                            seq![0x5du8]
                        } else {
                            seq![0x2cu8] + (enc_items(m.skip(out@.len() as int).drop_first())
                                + seq![0x5du8])
                        })
                    } by {
                        let k = out@.len() as int;
                        let rest = m.skip(k);
                        items_head_facts(s@, start as int, end as int, m, i as int, out@);
                        let e0 = enc_rec(rest[0]);
                        assert(rec_at(s@, i as int, i + e0.len(), rest[0]));
                        assert((i + e0.len()) as usize == i + e0.len());
                    }
                }
                out.push(t);
                proof {
                    assert(i < j <= len);
                }
                if j == len {
                    proof {
                        assert forall|m: Seq<TransactionV>, end: usize| items_at(
                            s@,
                            start as int,
                            end as int,
                            m,
                        ) implies false by {
                        }
                    }
                    return None;
                }
                if s[j] == 0x2c {
                    proof {
                        assert forall|m: Seq<TransactionV>, end: usize| #[trigger] items_at(
                            s@,
                            start as int,
                            end as int,
                            m,
                        ) implies {
                            &&& out@.len() <= m.len()
                            &&& col_view(out@) == m.subrange(0, out@.len() as int)
                            &&& j + 1 <= end
                            &&& s@.subrange(j + 1, end as int) == enc_items(
                                m.skip(out@.len() as int),
                            ) + seq![0x5du8]
                        } by {
                            let k = out@.len() as int - 1;
                            let rest = m.skip(k);
                            if rest.len() == 1 {
                                assert(s@[j as int] == s@.subrange(j as int, end as int)[0]);
                                assert(false);
                            }
                            assert(s@.subrange(j as int, end as int) == seq![0x2cu8] + (enc_items(
                                rest.drop_first(),
                            ) + seq![0x5du8]));
                            lemma_split_at(
                                s@,
                                j as int,
                                end as int,
                                seq![0x2cu8],
                                enc_items(rest.drop_first()) + seq![0x5du8],
                            );
                            assert(rest.drop_first() =~= m.skip(k + 1));
                            assert(col_view(out@) =~= m.subrange(0, k + 1));
                        }
                    }
                    i = j + 1;
                } else if s[j] == 0x5d {
                    proof {
                        assert forall|m: Seq<TransactionV>, end: usize| items_at(
                            s@,
                            start as int,
                            end as int,
                            m,
                        ) implies col_view(out@) == m && j + 1 == end by {
                            let k = out@.len() as int - 1;
                            let rest = m.skip(k);
                            if rest.len() > 1 {
                                assert(s@[j as int] == s@.subrange(j as int, end as int)[0]);
                                assert(false);
                            }
                            assert(s@.subrange(j as int, end as int) == seq![0x5du8]);
                            assert(end == j + 1);
                            assert(col_view(out@) =~= m.subrange(0, k + 1));
                            assert(m.subrange(0, k + 1) =~= m);
                        }
                    }
                    return Some((out, j + 1));
                } else {
                    proof {
                        assert forall|m: Seq<TransactionV>, end: usize| items_at(
                            s@,
                            start as int,
                            end as int,
                            m,
                        ) implies false by {
                            let k = out@.len() as int - 1;
                            let rest = m.skip(k);
                            assert(s@[j as int] == s@.subrange(j as int, end as int)[0]);
                            if rest.len() == 1 {
                                assert(s@[j as int] == 0x5d);
                            } else {
                                assert(s@[j as int] == (seq![0x2cu8] + (enc_items(
                                    rest.drop_first(),
                                ) + seq![0x5du8]))[0]);
                            }
                        }
                    }
                    return None;
                }
            },
            None => {
                proof {
                    assert forall|m: Seq<TransactionV>, end: usize| items_at(
                        s@,
                        start as int,
                        end as int,
                        m,
                    ) implies false by {
                        let k = out@.len() as int;
                        let rest = m.skip(k);
                        items_head_facts(s@, start as int, end as int, m, i as int, out@);
                        let e0 = enc_rec(rest[0]);
                        assert(rec_at(s@, i as int, i + e0.len(), rest[0]));
                        assert((i + e0.len()) as usize == i + e0.len());
                    }
                }
                return None;
            },
        }
    }
}

/// When the cursor does not rest on the closing bracket, an entry stands at
/// the cursor and the rest of the items after it.
proof fn items_head_facts(
    s: Seq<u8>,
    start: int,
    end: int,
    m: Seq<TransactionV>,
    i: int,
    outv: Seq<Transaction>,
)
    requires
        items_at(s, start, end, m),
        outv.len() <= m.len(),
        i <= end <= s.len(),
        0 <= i < s.len(),
        s.subrange(i, end) == enc_items(m.skip(outv.len() as int)) + seq![0x5du8],
        s[i] != 0x5d,
    ensures
        outv.len() < m.len(),
        rec_at(s, i, i + enc_rec(m.skip(outv.len() as int)[0]).len(), m.skip(outv.len() as int)[0]),
        i + enc_rec(m.skip(outv.len() as int)[0]).len() < end,
        s.subrange(i + enc_rec(m.skip(outv.len() as int)[0]).len(), end) == (if m.skip(
            outv.len() as int,
        ).len() == 1 {
            seq![0x5du8]
        } else {
            seq![0x2cu8] + (enc_items(m.skip(outv.len() as int).drop_first()) + seq![0x5du8])
        }),
{
    let k = outv.len() as int;
    let rest = m.skip(k);
    if rest.len() == 0 {
        assert((enc_items(rest) + seq![0x5du8]).len() == 1);
        assert(s[i] == s.subrange(i, end)[0]);
        assert(false);
    }
    lemma_enc_rec_first(rest[0]);
    let e0 = enc_rec(rest[0]);
    if rest.len() == 1 {
        assert(s.subrange(i, end) == e0 + seq![0x5du8]);
        lemma_split_at(s, i, end, e0, seq![0x5du8]);
    } else {
        assert(enc_items(rest) == e0 + (seq![0x2cu8] + enc_items(rest.drop_first())));
        assert(enc_items(rest) + seq![0x5du8] =~= e0 + (seq![0x2cu8] + (enc_items(
            rest.drop_first(),
        ) + seq![0x5du8])));
        lemma_split_at(
            s,
            i,
            end,
            e0,
            seq![0x2cu8] + (enc_items(rest.drop_first()) + seq![0x5du8]),
        );
    }
}

/// The whole byte string is exactly the encoding of the collection `m`.
pub open spec fn col_at(s: Seq<u8>, m: Seq<TransactionV>) -> bool {
    s == enc_col(m)
}

/// Parses a whole encoded collection. The parse succeeds exactly when the
/// bytes are the encoding of some collection, and then gives back exactly
/// that collection; on any other input it fails, and the caller starts
/// from an empty collection.
pub fn decode(bytes: &Vec<u8>) -> (r: Option<Vec<Transaction>>)
    ensures
        forall|m: Seq<TransactionV>| #[trigger] col_at(bytes@, m) ==> (r matches Some(v)
            && col_view(v@) == m),
        r matches Some(v) ==> col_at(bytes@, col_view(v@)),
{
    let len: usize = bytes.len();
    if len == 0 || bytes[0] != 0x5b {
        proof {
            assert forall|m: Seq<TransactionV>| col_at(bytes@, m) implies false by {
                assert(bytes@.len() >= 2);
                assert(bytes@[0] == seq![0x5bu8][0]);
            }
        }
        return None;
    }
    let o = parse_items(bytes, 1);
    match o {
        Some((v, j)) => {
            if j == len {
                proof {
                    assert forall|m: Seq<TransactionV>| col_at(bytes@, m) implies col_view(v@)
                        == m by {
                        assert(bytes@.subrange(0, len as int) =~= bytes@);
                        lemma_split_at(
                            bytes@,
                            0,
                            len as int,
                            seq![0x5bu8],
                            enc_items(m) + seq![0x5du8],
                        );
                        assert(items_at(bytes@, 1, len as int, m));
                    }
                }
                let reencoded = encode(&v);
                if bytes_eq(bytes, &reencoded) {
                    Some(v)
                } else {
                    None
                }
            } else {
                proof {
                    assert forall|m: Seq<TransactionV>| col_at(bytes@, m) implies false by {
                        assert(bytes@.subrange(0, len as int) =~= bytes@);
                        lemma_split_at(
                            bytes@,
                            0,
                            len as int,
                            seq![0x5bu8],
                            enc_items(m) + seq![0x5du8],
                        );
                        assert(items_at(bytes@, 1, len as int, m));
                    }
                }
                None
            }
        },
        None => {
            proof {
                assert forall|m: Seq<TransactionV>| col_at(bytes@, m) implies false by {
                    assert(bytes@.subrange(0, len as int) =~= bytes@);
                    lemma_split_at(
                        bytes@,
                        0,
                        len as int,
                        seq![0x5bu8],
                        enc_items(m) + seq![0x5du8],
                    );
                    assert(items_at(bytes@, 1, len as int, m));
                }
            }
            None
        },
    }
}

} // verus!
