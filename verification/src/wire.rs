//! Byte-level building blocks of the JSON wire messages.
//!
//! The three handshake messages travel as compact JSON without whitespace,
//! object fields in a fixed order, strings escaped the canonical way (the two
//! metacharacters and the control bytes, short escapes where one exists and
//! lowercase `\u00..` otherwise), and sizes as plain decimal numbers. The
//! parsers accept exactly this canonical form, so a parse that succeeds
//! pins the bytes down completely.

use vstd::prelude::*;

verus! {

pub const QUOTE: u8 = 34;

pub const BACKSLASH: u8 = 92;

pub const LBRACE: u8 = 123;

pub const RBRACE: u8 = 125;

pub const LBRACKET: u8 = 91;

pub const RBRACKET: u8 = 93;

pub const COLON: u8 = 58;

pub const COMMA: u8 = 44;

/// Lowercase hexadecimal digit for a value below 16.
pub open spec fn hex_digit(n: u8) -> u8 {
    if n < 10 {
        (48 + n) as u8
    } else {
        (87 + n) as u8
    }
}

/// Whether `b` is a lowercase hexadecimal digit, and its value.
pub open spec fn is_hex_lower(b: u8) -> bool {
    (48 <= b && b <= 57) || (97 <= b && b <= 102)
}

pub open spec fn hex_val(b: u8) -> u8 {
    if 48 <= b && b <= 57 {
        (b - 48) as u8
    } else {
        (b - 87) as u8
    }
}

/// Bytes with a short escape of their own.
pub open spec fn short_escape(b: u8) -> bool {
    b == QUOTE || b == BACKSLASH || b == 8 || b == 9 || b == 10 || b == 12 || b == 13
}

/// The canonical escape of one byte inside a JSON string.
pub open spec fn esc_byte(b: u8) -> Seq<u8> {
    if b == QUOTE {
        seq![BACKSLASH, QUOTE]
    } else if b == BACKSLASH {
        seq![BACKSLASH, BACKSLASH]
    } else if b == 8 {
        seq![BACKSLASH, 98]  // \b
    } else if b == 9 {
        seq![BACKSLASH, 116]  // \t
    } else if b == 10 {
        seq![BACKSLASH, 110]  // \n
    } else if b == 12 {
        seq![BACKSLASH, 102]  // \f
    } else if b == 13 {
        seq![BACKSLASH, 114]  // \r
    } else if b < 32 {
        seq![BACKSLASH, 117, 48, 48, hex_digit(b / 16), hex_digit(b % 16)]  // \u00..
    } else {
        seq![b]
    }
}

/// The canonical escape of a whole byte string.
pub open spec fn esc(s: Seq<u8>) -> Seq<u8>
    decreases s.len(),
{
    if s.len() == 0 {
        Seq::empty()
    } else {
        esc_byte(s[0]) + esc(s.skip(1))
    }
}

/// A JSON string: quote, escaped content, quote.
pub open spec fn jstr(s: Seq<u8>) -> Seq<u8> {
    seq![QUOTE] + esc(s) + seq![QUOTE]
}

/// Decimal digits of `n`, most significant first, no leading zero.
pub open spec fn dec_of(n: nat) -> Seq<u8>
    decreases n,
{
    if n < 10 {
        seq![(48 + n) as u8]
    } else {
        dec_of(n / 10) + seq![(48 + (n % 10)) as u8]
    }
}

/// Escaping distributes over concatenation.
pub proof fn lemma_esc_concat(a: Seq<u8>, b: Seq<u8>)
    ensures
        esc(a + b) == esc(a) + esc(b),
    decreases a.len(),
{
    if a.len() == 0 {
        assert(a + b =~= b);
        assert(esc(a) + esc(b) =~= esc(b));
    } else {
        lemma_esc_concat(a.skip(1), b);
        assert((a + b).skip(1) =~= a.skip(1) + b);
        assert(esc(a + b) =~= esc_byte(a[0]) + (esc(a.skip(1)) + esc(b)));
        assert(esc_byte(a[0]) + (esc(a.skip(1)) + esc(b)) =~= (esc_byte(a[0]) + esc(a.skip(1)))
            + esc(b));
    }
}

/// Escaping a single byte is the escape of that byte.
pub proof fn lemma_esc_singleton(b: u8)
    ensures
        esc(seq![b]) == esc_byte(b),
{
    assert(seq![b].skip(1) =~= Seq::<u8>::empty());
    assert(esc(Seq::<u8>::empty()) =~= Seq::<u8>::empty());
    assert(esc(seq![b]) =~= esc_byte(b) + Seq::<u8>::empty());
    assert(esc_byte(b) + Seq::<u8>::empty() =~= esc_byte(b));
}

/// Append `data` escaped to `out`.
#[verifier::rlimit(50)]
#[verifier::spinoff_prover]
pub fn push_escaped(out: &mut Vec<u8>, data: &Vec<u8>)
    ensures
        final(out)@ == old(out)@ + esc(data@),
{
    let mut i: usize = 0;
    while i < data.len()
        invariant
            i <= data.len(),
            out@ == old(out)@ + esc(data@.take(i as int)),
        decreases data.len() - i,
    {
        let b = data[i];
        proof {
            lemma_esc_concat(data@.take(i as int), seq![b]);
            assert(data@.take(i + 1) =~= data@.take(i as int) + seq![b]);
            lemma_esc_singleton(b);
        }
        if b == QUOTE {
            out.push(BACKSLASH);
            out.push(QUOTE);
        } else if b == BACKSLASH {
            out.push(BACKSLASH);
            out.push(BACKSLASH);
        } else if b == 8 {
            out.push(BACKSLASH);
            out.push(98);
        } else if b == 9 {
            out.push(BACKSLASH);
            out.push(116);
        } else if b == 10 {
            out.push(BACKSLASH);
            out.push(110);
        } else if b == 12 {
            out.push(BACKSLASH);
            out.push(102);
        } else if b == 13 {
            out.push(BACKSLASH);
            out.push(114);
        } else if b < 32 {
            out.push(BACKSLASH);
            out.push(117);
            out.push(48);
            out.push(48);
            out.push(if b / 16 < 10 {
                48 + b / 16
            } else {
                87 + b / 16
            });
            out.push(if b % 16 < 10 {
                48 + b % 16
            } else {
                87 + b % 16
            });
        } else {
            out.push(b);
        }
        proof {
            assert(out@ =~= old(out)@ + esc(data@.take(i + 1)));
        }
        i = i + 1;
    }
    proof {
        assert(data@.take(data@.len() as int) =~= data@);
    }
}

/// Append `data` as a JSON string to `out`.
pub fn push_jstr(out: &mut Vec<u8>, data: &Vec<u8>)
    ensures
        final(out)@ == old(out)@ + jstr(data@),
{
    out.push(QUOTE);
    push_escaped(out, data);
    out.push(QUOTE);
    proof {
        assert(out@ =~= old(out)@ + jstr(data@));
    }
}

/// Append the decimal digits of `n` to `out`.
pub fn push_dec(out: &mut Vec<u8>, n: u64)
    ensures
        final(out)@ == old(out)@ + dec_of(n as nat),
    decreases n,
{
    if n < 10 {
        out.push(48 + (n as u8));
        proof {
            assert(out@ =~= old(out)@ + dec_of(n as nat));
        }
    } else {
        push_dec(out, n / 10);
        out.push(48 + ((n % 10) as u8));
        proof {
            assert(out@ =~= old(out)@ + dec_of(n as nat));
        }
    }
}

/// The byte a short escape stands for.
pub open spec fn unesc_short(e: u8) -> u8 {
    if e == QUOTE {
        QUOTE
    } else if e == BACKSLASH {
        BACKSLASH
    } else if e == 98 {
        8
    } else if e == 116 {
        9
    } else if e == 110 {
        10
    } else if e == 102 {
        12
    } else {
        13
    }
}

pub open spec fn is_short_escape_mark(e: u8) -> bool {
    e == QUOTE || e == BACKSLASH || e == 98 || e == 116 || e == 110 || e == 102 || e == 114
}

/// Canonical parse of a JSON string body, entered after the opening quote:
/// the unescaped content and the bytes after the closing quote. Only the
/// escapes that `esc_byte` emits are accepted.
pub open spec fn take_str_body(s: Seq<u8>) -> Option<(Seq<u8>, Seq<u8>)>
    decreases s.len(),
{
    if s.len() == 0 {
        None
    } else if s[0] == QUOTE {
        Some((Seq::empty(), s.skip(1)))
    } else if s[0] == BACKSLASH {
        if s.len() < 2 {
            None
        } else if is_short_escape_mark(s[1]) {
            match take_str_body(s.skip(2)) {
                Some(p) => Some((seq![unesc_short(s[1])] + p.0, p.1)),
                None => None,
            }
        } else if s[1] == 117 && s.len() >= 6 && s[2] == 48 && s[3] == 48 && is_hex_lower(s[4])
            && is_hex_lower(s[5]) && (16 * hex_val(s[4]) + hex_val(s[5])) < 32 && !short_escape(
            (16 * hex_val(s[4]) + hex_val(s[5])) as u8,
        ) {
            match take_str_body(s.skip(6)) {
                Some(p) => Some(
                    (seq![(16 * hex_val(s[4]) + hex_val(s[5])) as u8] + p.0, p.1),
                ),
                None => None,
            }
        } else {
            None
        }
    } else if s[0] < 32 {
        None
    } else {
        match take_str_body(s.skip(1)) {
            Some(p) => Some((seq![s[0]] + p.0, p.1)),
            None => None,
        }
    }
}

/// A full JSON string: opening quote, then the body.
pub open spec fn take_jstr(s: Seq<u8>) -> Option<(Seq<u8>, Seq<u8>)> {
    if s.len() > 0 && s[0] == QUOTE {
        take_str_body(s.skip(1))
    } else {
        None
    }
}

/// Parse a JSON string body out of `v` starting at `start` (just after the
/// opening quote), handing back the content and the index after the closing
/// quote.
pub fn parse_str_body(v: &Vec<u8>, start: usize) -> (r: Option<(Vec<u8>, usize)>)
    requires
        start <= v@.len(),
    ensures
        match r {
            Some(p) => start < p.1 <= v@.len() && take_str_body(v@.skip(start as int)) == Some(
                (p.0@, v@.skip(p.1 as int)),
            ),
            None => take_str_body(v@.skip(start as int)) is None,
        },
    decreases v@.len() - start,
{
    let ghost s = v@.skip(start as int);
    if start == v.len() {
        return None;
    }
    let b = v[start];
    assert(s[0] == b);
    if b == QUOTE {
        proof {
            assert(s.skip(1) =~= v@.skip(start + 1));
        }
        return Some((Vec::new(), start + 1));
    }
    if b == BACKSLASH {
        if start + 1 >= v.len() {
            return None;
        }
        let e = v[start + 1];
        assert(s[1] == e);
        if e == QUOTE || e == BACKSLASH || e == 98 || e == 116 || e == 110 || e == 102 || e
            == 114 {
            let u: u8 = if e == QUOTE {
                QUOTE
            } else if e == BACKSLASH {
                BACKSLASH
            } else if e == 98 {
                8
            } else if e == 116 {
                9
            } else if e == 110 {
                10
            } else if e == 102 {
                12
            } else {
                13
            };
            proof {
                assert(s.skip(2) =~= v@.skip(start + 2));
            }
            match parse_str_body(v, start + 2) {
                Some((mut c, end)) => {
                    let ghost c0 = c@;
                    c.insert(0, u);
                    proof {
                        assert(c@ =~= seq![u] + c0);
                    }
                    return Some((c, end));
                },
                None => {
                    return None;
                },
            }
        }
        if e == 117 && v.len() - start > 5 && v[start + 2] == 48 && v[start + 3] == 48 {
            let h1 = v[start + 4];
            let h2 = v[start + 5];
            assert(s[2] == 48 && s[3] == 48 && s[4] == h1 && s[5] == h2);
            let hex1 = (48 <= h1 && h1 <= 57) || (97 <= h1 && h1 <= 102);
            let hex2 = (48 <= h2 && h2 <= 57) || (97 <= h2 && h2 <= 102);
            if hex1 && hex2 {
                let v1: u8 = if h1 <= 57 {
                    h1 - 48
                } else {
                    h1 - 87
                };
                let v2: u8 = if h2 <= 57 {
                    h2 - 48
                } else {
                    h2 - 87
                };
                let u: u8 = 16 * v1 + v2;
                if u < 32 && u != 8 && u != 9 && u != 10 && u != 12 && u != 13 {
                    proof {
                        assert(s.skip(6) =~= v@.skip(start + 6));
                    }
                    match parse_str_body(v, start + 6) {
                        Some((mut c, end)) => {
                            let ghost c0 = c@;
                            c.insert(0, u);
                            proof {
                                assert(c@ =~= seq![u] + c0);
                            }
                            return Some((c, end));
                        },
                        None => {
                            return None;
                        },
                    }
                }
            }
        }
        return None;
    }
    if b < 32 {
        return None;
    }
    proof {
        assert(s.skip(1) =~= v@.skip(start + 1));
    }
    match parse_str_body(v, start + 1) {
        Some((mut c, end)) => {
            let ghost c0 = c@;
            c.insert(0, b);
            proof {
                assert(c@ =~= seq![b] + c0);
            }
            Some((c, end))
        },
        None => None,
    }
}

/// Parse a full JSON string (opening quote included) out of `v` at `start`.
pub fn parse_jstr(v: &Vec<u8>, start: usize) -> (r: Option<(Vec<u8>, usize)>)
    requires
        start <= v@.len(),
    ensures
        match r {
            Some(p) => start + 1 < p.1 <= v@.len() && take_jstr(v@.skip(start as int)) == Some(
                (p.0@, v@.skip(p.1 as int)),
            ),
            None => take_jstr(v@.skip(start as int)) is None,
        },
{
    if start == v.len() || v[start] != QUOTE {
        return None;
    }
    proof {
        assert(v@.skip(start as int)[0] == QUOTE);
        assert(v@.skip(start as int).skip(1) =~= v@.skip(start + 1));
    }
    parse_str_body(v, start + 1)
}

pub open spec fn is_digit(b: u8) -> bool {
    48 <= b && b <= 57
}

/// Length of the leading run of decimal digits.
pub open spec fn digit_prefix_len(s: Seq<u8>) -> int
    decreases s.len(),
{
    if s.len() == 0 || !is_digit(s[0]) {
        0
    } else {
        1 + digit_prefix_len(s.skip(1))
    }
}

/// Value of a digit string, most significant digit first.
pub open spec fn val_of(d: Seq<u8>) -> int
    decreases d.len(),
{
    if d.len() == 0 {
        0
    } else {
        val_of(d.drop_last()) * 10 + (d.last() - 48)
    }
}

/// Canonical parse of a decimal number: the longest digit run, without a
/// leading zero, whose value fits in a `u64`.
pub open spec fn take_dec(s: Seq<u8>) -> Option<(u64, Seq<u8>)> {
    let k = digit_prefix_len(s);
    if k >= 1 && (s[0] != 48 || k == 1) && val_of(s.take(k)) <= u64::MAX {
        Some((val_of(s.take(k)) as u64, s.skip(k)))
    } else {
        None
    }
}

/// A digit run of known extent pins `digit_prefix_len` down.
proof fn lemma_digit_prefix_exact(s: Seq<u8>, k: int)
    requires
        0 <= k <= s.len(),
        forall|j: int| 0 <= j < k ==> is_digit(#[trigger] s[j]),
        k == s.len() || !is_digit(s[k]),
    ensures
        digit_prefix_len(s) == k,
    decreases k,
{
    if k == 0 {
    } else {
        assert(is_digit(s[0]));
        lemma_digit_prefix_exact(s.skip(1), k - 1);
    }
}

/// A digit string's value is non-negative.
proof fn lemma_val_nonneg(d: Seq<u8>)
    requires
        forall|j: int| 0 <= j < d.len() ==> is_digit(#[trigger] d[j]),
    ensures
        val_of(d) >= 0,
    decreases d.len(),
{
    if d.len() > 0 {
        lemma_val_nonneg(d.drop_last());
    }
}

/// Extending a digit string never shrinks its value.
proof fn lemma_val_prefix_le(d: Seq<u8>, j: int)
    requires
        forall|i: int| 0 <= i < d.len() ==> is_digit(#[trigger] d[i]),
        0 <= j <= d.len(),
    ensures
        val_of(d.take(j)) <= val_of(d),
    decreases d.len() - j,
{
    if j == d.len() {
        assert(d.take(j) =~= d);
    } else {
        lemma_val_prefix_le(d, j + 1);
        let t = d.take(j + 1);
        assert(t.drop_last() =~= d.take(j));
        lemma_val_nonneg(d.take(j));
        assert(val_of(t) == val_of(d.take(j)) * 10 + (t.last() - 48));
        assert(val_of(d.take(j)) * 10 >= val_of(d.take(j)));
    }
}

/// Parse a canonical decimal number out of `v` at `start`.
pub fn parse_dec(v: &Vec<u8>, start: usize) -> (r: Option<(u64, usize)>)
    requires
        start <= v@.len(),
    ensures
        match r {
            Some(p) => start < p.1 <= v@.len() && take_dec(v@.skip(start as int)) == Some(
                (p.0, v@.skip(p.1 as int)),
            ),
            None => take_dec(v@.skip(start as int)) is None,
        },
{
    let ghost s = v@.skip(start as int);
    if start == v.len() || !(48 <= v[start] && v[start] <= 57) {
        proof {
            if s.len() > 0 {
                assert(s[0] == v@[start as int]);
            }
            assert(digit_prefix_len(s) == 0);
        }
        return None;
    }
    assert(s[0] == v@[start as int]);
    if v[start] == 48 {
        // a canonical "0" stands alone
        if start + 1 < v.len() && 48 <= v[start + 1] && v[start + 1] <= 57 {
            proof {
                assert(s[1] == v@[start + 1]);
                lemma_digit_prefix_ge(s, 2);
            }
            return None;
        }
        proof {
            lemma_digit_prefix_exact(s, 1);
            assert(s.take(1).drop_last() =~= Seq::<u8>::empty());
            assert(val_of(Seq::<u8>::empty()) == 0);
            assert(s.take(1).last() == 48);
            assert(val_of(s.take(1)) == 0);
            assert(s.skip(1) =~= v@.skip(start + 1));
        }
        return Some((0u64, start + 1));
    }
    let mut acc: u64 = (v[start] - 48) as u64;
    let mut i: usize = start + 1;
    proof {
        let d0 = v@.subrange(start as int, i as int);
        assert(d0.drop_last() =~= Seq::<u8>::empty());
        assert(val_of(Seq::<u8>::empty()) == 0);
        assert(d0.last() == v@[start as int]);
        assert(acc == val_of(d0));
    }
    while i < v.len() && 48 <= v[i] && v[i] <= 57
        invariant
            start < i <= v@.len(),
            forall|j: int| start <= j < i ==> is_digit(#[trigger] v@[j]),
            acc == val_of(v@.subrange(start as int, i as int)),
            v@[start as int] != 48,
            start <= v@.len(),
            s == v@.skip(start as int),
        decreases v@.len() - i,
    {
        let d: u64 = (v[i] - 48) as u64;
        if acc > (u64::MAX - d) / 10 {
            // the full digit run does not fit in a u64
            proof {
                let full = digit_prefix_len(s);
                lemma_digit_prefix_ge(s, i - start + 1);
                lemma_digit_prefix_all(s);
                lemma_val_prefix_le(s.take(full), i + 1 - start);
                assert(s.take(full).take(i + 1 - start) =~= v@.subrange(start as int, i + 1));
                assert(v@.subrange(start as int, i + 1).drop_last() =~= v@.subrange(
                    start as int,
                    i as int,
                ));
                assert(val_of(v@.subrange(start as int, i + 1)) == acc * 10 + d);
                assert(acc * 10 + d > u64::MAX) by (nonlinear_arith)
                    requires
                        acc > (u64::MAX - d) / 10 && 0 <= d <= 9,
                ;
            }
            return None;
        }
        proof {
            assert(acc * 10 + d <= u64::MAX) by (nonlinear_arith)
                requires
                    acc <= (u64::MAX - d) / 10 && 0 <= d <= 9 && acc >= 0,
            ;
            assert(v@.subrange(start as int, i + 1).drop_last() =~= v@.subrange(
                start as int,
                i as int,
            ));
        }
        acc = acc * 10 + d;
        i = i + 1;
    }
    proof {
        lemma_digit_prefix_exact(s, i - start);
        assert(s.take(i - start) =~= v@.subrange(start as int, i as int));
        assert(s.skip(i - start) =~= v@.skip(i as int));
        lemma_val_nonneg(v@.subrange(start as int, i as int));
    }
    Some((acc, i))
}

/// The digit prefix covers at least any shorter run of digits.
proof fn lemma_digit_prefix_ge(s: Seq<u8>, k: int)
    requires
        0 <= k <= s.len(),
        forall|j: int| 0 <= j < k ==> is_digit(#[trigger] s[j]),
    ensures
        digit_prefix_len(s) >= k,
    decreases k,
{
    if k == 0 {
        lemma_digit_prefix_all(s);
    } else {
        assert(is_digit(s[0]));
        assert forall|j: int| 0 <= j < k - 1 implies is_digit(#[trigger] s.skip(1)[j]) by {
            assert(s.skip(1)[j] == s[j + 1]);
        }
        lemma_digit_prefix_ge(s.skip(1), k - 1);
        assert(digit_prefix_len(s) == 1 + digit_prefix_len(s.skip(1)));
    }
}

/// Every byte inside the digit prefix is a digit.
pub proof fn lemma_digit_prefix_all(s: Seq<u8>)
    ensures
        0 <= digit_prefix_len(s) <= s.len(),
        forall|j: int| 0 <= j < digit_prefix_len(s) ==> is_digit(#[trigger] s[j]),
    decreases s.len(),
{
    if s.len() > 0 && is_digit(s[0]) {
        lemma_digit_prefix_all(s.skip(1));
        assert forall|j: int| 0 <= j < digit_prefix_len(s) implies is_digit(#[trigger] s[j]) by {
            if j > 0 {
                assert(s[j] == s.skip(1)[j - 1]);
            }
        }
    }
}

/// A literal: the bytes of `lit`, then the rest.
pub open spec fn take_lit(s: Seq<u8>, lit: Seq<u8>) -> Option<Seq<u8>> {
    if lit.len() <= s.len() && s.take(lit.len() as int) == lit {
        Some(s.skip(lit.len() as int))
    } else {
        None
    }
}

/// Match the bytes of `lit` at `start`.
pub fn expect_lit(v: &Vec<u8>, start: usize, lit: &Vec<u8>) -> (r: Option<usize>)
    requires
        start <= v@.len(),
    ensures
        match r {
            Some(j) => j == start + lit@.len() && j <= v@.len() && take_lit(
                v@.skip(start as int),
                lit@,
            ) == Some(v@.skip(j as int)),
            None => take_lit(v@.skip(start as int), lit@) is None,
        },
{
    let ghost s = v@.skip(start as int);
    let n = v.len();
    if n - start < lit.len() {
        return None;
    }
    let mut i: usize = 0;
    while i < lit.len()
        invariant
            0 <= i <= lit@.len(),
            lit@.len() <= n - start,
            start <= n,
            n == v@.len(),
            s == v@.skip(start as int),
            forall|j: int| 0 <= j < i ==> s[j] == lit@[j],
        decreases lit@.len() - i,
    {
        proof {
            assert(start + i < n);
        }
        if v[start + i] != lit[i] {
            proof {
                assert(s[i as int] == v@[start + i]);
                assert(s.take(lit@.len() as int)[i as int] != lit@[i as int]);
            }
            return None;
        }
        proof {
            assert(s[i as int] == v@[start + i]);
        }
        i = i + 1;
    }
    proof {
        assert(s.take(lit@.len() as int) =~= lit@);
        assert(s.skip(lit@.len() as int) =~= v@.skip(start + lit@.len()));
    }
    Some(start + lit.len())
}

/// Round trip for literals: what was written is taken back off.
pub proof fn lemma_take_lit_of(lit: Seq<u8>, rest: Seq<u8>)
    ensures
        take_lit(lit + rest, lit) == Some(rest),
{
    assert((lit + rest).take(lit.len() as int) =~= lit);
    assert((lit + rest).skip(lit.len() as int) =~= rest);
}

/// Round trip for string bodies: parsing the canonical escape of `c`
/// followed by the closing quote yields `c` back, with `rest` untouched.
pub proof fn lemma_take_esc(c: Seq<u8>, rest: Seq<u8>)
    ensures
        take_str_body(esc(c) + seq![QUOTE] + rest) == Some((c, rest)),
    decreases c.len(),
{
    let s = esc(c) + seq![QUOTE] + rest;
    if c.len() == 0 {
        assert(esc(c) =~= Seq::<u8>::empty());
        assert(s =~= seq![QUOTE] + rest);
        assert(s[0] == QUOTE);
        assert(s.skip(1) =~= rest);
        assert(c =~= Seq::<u8>::empty());
    } else {
        let b = c[0];
        let tail = esc(c.skip(1)) + seq![QUOTE] + rest;
        lemma_take_esc(c.skip(1), rest);
        assert(esc(c) == esc_byte(b) + esc(c.skip(1)));
        assert(s =~= esc_byte(b) + tail);
        if short_escape(b) {
            let m = esc_byte(b)[1];
            assert(esc_byte(b) =~= seq![BACKSLASH, m]);
            assert(s[0] == BACKSLASH && s[1] == m);
            assert(is_short_escape_mark(m));
            assert(unesc_short(m) == b);
            assert(s.skip(2) =~= tail);
            assert(seq![b] + c.skip(1) =~= c);
        } else if b < 32 {
            assert(esc_byte(b) =~= seq![
                BACKSLASH,
                117,
                48,
                48,
                hex_digit(b / 16),
                hex_digit(b % 16),
            ]);
            assert(s[0] == BACKSLASH && s[1] == 117 && s[2] == 48 && s[3] == 48 && s[4]
                == hex_digit(b / 16) && s[5] == hex_digit(b % 16));
            assert(!is_short_escape_mark(117));
            assert(is_hex_lower(hex_digit(b / 16)) && hex_val(hex_digit(b / 16)) == b / 16);
            assert(is_hex_lower(hex_digit(b % 16)) && hex_val(hex_digit(b % 16)) == b % 16);
            assert(16 * (b / 16) + (b % 16) == b) by (nonlinear_arith);
            assert(s.skip(6) =~= tail);
            assert(seq![b] + c.skip(1) =~= c);
        } else {
            assert(esc_byte(b) =~= seq![b]);
            assert(s[0] == b);
            assert(b != QUOTE && b != BACKSLASH && b >= 32);
            assert(s.skip(1) =~= tail);
            assert(seq![b] + c.skip(1) =~= c);
        }
    }
}

/// Round trip for JSON strings.
pub proof fn lemma_take_jstr_of(c: Seq<u8>, rest: Seq<u8>)
    ensures
        take_jstr(jstr(c) + rest) == Some((c, rest)),
{
    let s = jstr(c) + rest;
    assert(s[0] == QUOTE);
    assert(s.skip(1) =~= esc(c) + seq![QUOTE] + rest);
    lemma_take_esc(c, rest);
}

/// The decimal digits of `n` are canonical: non-empty, all digits, no
/// leading zero, and they evaluate back to `n`.
pub proof fn lemma_dec_of_props(n: nat)
    ensures
        dec_of(n).len() >= 1,
        forall|j: int| 0 <= j < dec_of(n).len() ==> is_digit(#[trigger] dec_of(n)[j]),
        dec_of(n)[0] != 48 || dec_of(n).len() == 1,
        val_of(dec_of(n)) == n,
    decreases n,
{
    if n < 10 {
        assert(dec_of(n) =~= seq![(48 + n) as u8]);
        assert(dec_of(n).drop_last() =~= Seq::<u8>::empty());
        assert(val_of(Seq::<u8>::empty()) == 0);
        assert(val_of(dec_of(n)) == n);
    } else {
        lemma_dec_of_props(n / 10);
        let p = dec_of(n / 10);
        let d = dec_of(n);
        assert(d == p + seq![(48 + (n % 10)) as u8]);
        assert(d.drop_last() =~= p);
        assert(d.last() == (48 + (n % 10)) as u8);
        assert(val_of(d) == val_of(p) * 10 + (n % 10));
        assert((n / 10) * 10 + (n % 10) == n) by (nonlinear_arith);
        assert(d[0] == p[0]);
        assert(n / 10 >= 1);
        if p.len() == 1 {
            assert(p =~= seq![(48 + (n / 10)) as u8]) by {
                assert(n / 10 < 10 ==> dec_of(n / 10) =~= seq![(48 + (n / 10)) as u8]);
                if n / 10 >= 10 {
                    lemma_dec_of_props((n / 10) / 10);
                    assert(dec_of(n / 10).len() >= 2);
                }
            }
            assert(d[0] != 48);
        }
        assert(forall|j: int| 0 <= j < d.len() - 1 ==> d[j] == p[j]);
    }
}

/// Round trip for decimal numbers, provided no digit follows.
pub proof fn lemma_take_dec_of(n: u64, rest: Seq<u8>)
    requires
        rest.len() == 0 || !is_digit(rest[0]),
    ensures
        take_dec(dec_of(n as nat) + rest) == Some((n, rest)),
{
    let d = dec_of(n as nat);
    let s = d + rest;
    lemma_dec_of_props(n as nat);
    assert forall|j: int| 0 <= j < d.len() implies is_digit(#[trigger] s[j]) by {
        assert(s[j] == d[j]);
    }
    if rest.len() > 0 {
        assert(s[d.len() as int] == rest[0]);
    }
    lemma_digit_prefix_exact(s, d.len() as int);
    assert(s.take(d.len() as int) =~= d);
    assert(s.skip(d.len() as int) =~= rest);
    assert(s[0] == d[0]);
}

/// Parsing is sound for literals: matching one pins the input's head.
pub proof fn lemma_lit_sound(s: Seq<u8>, lit: Seq<u8>)
    ensures
        take_lit(s, lit) matches Some(r) ==> s == lit + r,
{
    if take_lit(s, lit) is Some {
        assert(s =~= s.take(lit.len() as int) + s.skip(lit.len() as int));
    }
}

/// Parsing is sound for string bodies: a successful parse pins the input to
/// the canonical escape of what was parsed.
pub proof fn lemma_str_body_sound(s: Seq<u8>)
    ensures
        take_str_body(s) matches Some(p) ==> s == esc(p.0) + seq![QUOTE] + p.1,
    decreases s.len(),
{
    if s.len() == 0 {
    } else if s[0] == QUOTE {
        assert(esc(Seq::<u8>::empty()) =~= Seq::<u8>::empty());
        assert(s =~= esc(Seq::<u8>::empty()) + seq![QUOTE] + s.skip(1));
    } else if s[0] == BACKSLASH {
        if s.len() >= 2 && is_short_escape_mark(s[1]) {
            lemma_str_body_sound(s.skip(2));
            if let Some((c, r)) = take_str_body(s.skip(2)) {
                let b = unesc_short(s[1]);
                assert(esc_byte(b) =~= seq![BACKSLASH, s[1]]);
                lemma_esc_concat(seq![b], c);
                assert(seq![b] + c =~= seq![b] + c);
                assert(esc(seq![b] + c) == esc(seq![b]) + esc(c));
                lemma_esc_singleton(b);
                assert(s =~= seq![BACKSLASH, s[1]] + s.skip(2));
                assert(s =~= esc(seq![b] + c) + seq![QUOTE] + r);
            }
        } else if s[1] == 117 && s.len() >= 6 && s[2] == 48 && s[3] == 48 && is_hex_lower(s[4])
            && is_hex_lower(s[5]) && (16 * hex_val(s[4]) + hex_val(s[5])) < 32 && !short_escape(
            (16 * hex_val(s[4]) + hex_val(s[5])) as u8,
        ) {
            lemma_str_body_sound(s.skip(6));
            if let Some((c, r)) = take_str_body(s.skip(6)) {
                let b = (16 * hex_val(s[4]) + hex_val(s[5])) as u8;
                assert(b / 16 == hex_val(s[4]) && b % 16 == hex_val(s[5])) by (nonlinear_arith)
                    requires
                        b == 16 * hex_val(s[4]) + hex_val(s[5]) && hex_val(s[5]) < 16 && hex_val(
                            s[4],
                        ) < 16,
                ;
                assert(hex_digit(hex_val(s[4])) == s[4]);
                assert(hex_digit(hex_val(s[5])) == s[5]);
                assert(esc_byte(b) =~= seq![BACKSLASH, 117, 48, 48, s[4], s[5]]);
                lemma_esc_concat(seq![b], c);
                lemma_esc_singleton(b);
                assert(s =~= seq![BACKSLASH, 117, 48, 48, s[4], s[5]] + s.skip(6));
                assert(s =~= esc(seq![b] + c) + seq![QUOTE] + r);
            }
        }
    } else if s[0] < 32 {
    } else {
        lemma_str_body_sound(s.skip(1));
        if let Some((c, r)) = take_str_body(s.skip(1)) {
            assert(esc_byte(s[0]) =~= seq![s[0]]);
            lemma_esc_concat(seq![s[0]], c);
            lemma_esc_singleton(s[0]);
            assert(s =~= seq![s[0]] + s.skip(1));
            assert(s =~= esc(seq![s[0]] + c) + seq![QUOTE] + r);
        }
    }
}

/// Parsing is sound for JSON strings.
pub proof fn lemma_jstr_sound(s: Seq<u8>)
    ensures
        take_jstr(s) matches Some(p) ==> s == jstr(p.0) + p.1,
{
    if s.len() > 0 && s[0] == QUOTE {
        lemma_str_body_sound(s.skip(1));
        if let Some((c, r)) = take_str_body(s.skip(1)) {
            assert(s =~= seq![QUOTE] + s.skip(1));
            assert(s =~= jstr(c) + r);
        }
    }
}

/// A digit string with a value at least 1 in its leading digit.
proof fn lemma_val_pos(d: Seq<u8>)
    requires
        d.len() >= 1,
        forall|j: int| 0 <= j < d.len() ==> is_digit(#[trigger] d[j]),
        d[0] != 48,
    ensures
        val_of(d) >= 1,
    decreases d.len(),
{
    if d.len() == 1 {
    } else {
        assert(d.drop_last()[0] == d[0]);
        lemma_val_pos(d.drop_last());
    }
}

/// Canonical digit strings are recovered from their value.
proof fn lemma_dec_val_inverse(d: Seq<u8>)
    requires
        d.len() >= 1,
        forall|j: int| 0 <= j < d.len() ==> is_digit(#[trigger] d[j]),
        d[0] != 48 || d.len() == 1,
    ensures
        val_of(d) >= 0,
        dec_of(val_of(d) as nat) == d,
    decreases d.len(),
{
    lemma_val_nonneg(d);
    if d.len() == 1 {
        assert(d.drop_last() =~= Seq::<u8>::empty());
        assert(val_of(Seq::<u8>::empty()) == 0);
        assert(d.last() == d[0]);
        assert(val_of(d) == d[0] - 48);
        assert(dec_of((d[0] - 48) as nat) =~= d);
    } else {
        let dl = d.drop_last();
        let x = d.last() - 48;
        assert(dl[0] == d[0]);
        lemma_dec_val_inverse(dl);
        lemma_val_pos(dl);
        let v = val_of(d);
        assert(v == val_of(dl) * 10 + x);
        assert(v >= 10) by (nonlinear_arith)
            requires
                v == val_of(dl) * 10 + x && val_of(dl) >= 1 && x >= 0,
        ;
        assert(v / 10 == val_of(dl) && v % 10 == x) by (nonlinear_arith)
            requires
                v == val_of(dl) * 10 + x && 0 <= x < 10 && val_of(dl) >= 0,
        ;
        assert(dec_of(v as nat) == dec_of(val_of(dl) as nat) + seq![(48 + x) as u8]);
        assert(dec_of(v as nat) =~= d);
    }
}

/// Parsing is sound for decimal numbers.
pub proof fn lemma_dec_sound(s: Seq<u8>)
    ensures
        take_dec(s) matches Some(p) ==> s == dec_of(p.0 as nat) + p.1,
{
    let k = digit_prefix_len(s);
    lemma_digit_prefix_all(s);
    if k >= 1 && (s[0] != 48 || k == 1) && val_of(s.take(k)) <= u64::MAX {
        let d = s.take(k);
        assert forall|j: int| 0 <= j < d.len() implies is_digit(#[trigger] d[j]) by {
            assert(d[j] == s[j]);
        }
        assert(d[0] == s[0]);
        lemma_dec_val_inverse(d);
        assert(s =~= d + s.skip(k));
    }
}

} // verus!
